//! Resolving a track to a playable audio stream with yt-dlp, and remembering what was
//! resolved for a while.
use vstd::prelude::*;
use crate::cookies::{lemma_views_push, views};
use crate::json::key_views;
use crate::clock::{clock_ms, now_ms};
use crate::text::{line_windows, lines, push_str, string_of, trim, trim_window, chars_of, CharClass};

verus! {

/// The audio formats that yt-dlp is asked for, best first.
pub const YTDLP_AUDIO_FORMAT: &'static str =
    "bestaudio[ext=m4a]/bestaudio[protocol^=http]/bestaudio/best[protocol^=http]/best";

/// How long a resolved stream address is used again, in milliseconds.
pub const STREAM_CACHE_TTL_MS: u64 = 45 * 60 * 1000;

/// The page of a video on YouTube.
pub open spec fn youtube_watch_url(video_id: Seq<char>) -> Seq<char> {
    "https://www.youtube.com/watch?v="@ + video_id
}

pub open spec fn cookie_args(cookie_file: Option<Seq<char>>) -> Seq<Seq<char>> {
    match cookie_file {
        Some(path) => seq!["--cookies"@, path],
        None => Seq::empty(),
    }
}

/// The arguments that make yt-dlp write the audio of a video to its output.
pub open spec fn stream_args(video_id: Seq<char>, cookie_file: Option<Seq<char>>) -> Seq<Seq<char>> {
    seq![
        "--format"@,
        YTDLP_AUDIO_FORMAT@,
        "--no-playlist"@,
        "--no-warnings"@,
        "--quiet"@,
        "--output"@,
        "-"@,
        "--add-header"@,
        "referer:https://music.youtube.com"@,
        "--add-header"@,
        "user-agent:Mozilla/5.0"@,
    ] + cookie_args(cookie_file) + seq!["--"@, youtube_watch_url(video_id)]
}

/// The arguments that make yt-dlp print the address of the audio stream of a video.
pub open spec fn resolve_args(video_id: Seq<char>, cookie_file: Option<Seq<char>>) -> Seq<Seq<char>> {
    seq![
        "--format"@,
        YTDLP_AUDIO_FORMAT@,
        "--no-playlist"@,
        "--no-warnings"@,
        "--quiet"@,
        "--get-url"@,
        "--add-header"@,
        "referer:https://music.youtube.com"@,
        "--add-header"@,
        "user-agent:Mozilla/5.0"@,
    ] + cookie_args(cookie_file) + seq![youtube_watch_url(video_id)]
}

/// Each text as a `String`.
fn to_strings(parts: &[&str]) -> (r: Vec<String>)
    ensures
        views(r@) == key_views(parts@),
{
    let mut r: Vec<String> = Vec::new();
    let mut i: usize = 0;
    while i < parts.len()
        invariant
            i <= parts@.len(),
            views(r@) == key_views(parts@.take(i as int)),
        decreases parts@.len() - i,
    {
        let s = parts[i].to_owned();
        proof {
            lemma_views_push(r@, s);
        }
        r.push(s);
        i = i + 1;
        assert(key_views(parts@.take(i as int)) =~= key_views(parts@.take(i - 1)).push(parts@[i - 1]@));
    }
    assert(parts@.take(i as int) =~= parts@);
    r
}

fn push_cookie_and_target(args: &mut Vec<String>, video_id: &str, cookie_file: Option<&str>, separator: bool)
    ensures
        views(final(args)@) == views(old(args)@) + cookie_args(
            match cookie_file {
                Some(p) => Some(p@),
                None => None,
            },
        ) + (if separator { seq!["--"@] } else { Seq::empty() }) + seq![youtube_watch_url(video_id@)],
{
    let ghost start = views(args@);
    match cookie_file {
        Some(path) => {
            let a = "--cookies".to_owned();
            let b = path.to_owned();
            proof {
                lemma_views_push(args@, a);
            }
            args.push(a);
            proof {
                lemma_views_push(args@, b);
            }
            args.push(b);
        },
        None => {},
    }
    let ghost mid = views(args@);
    if separator {
        let s = "--".to_owned();
        proof {
            lemma_views_push(args@, s);
        }
        args.push(s);
    }
    let mut url = "https://www.youtube.com/watch?v=".to_owned();
    push_str(&mut url, video_id);
    proof {
        lemma_views_push(args@, url);
    }
    args.push(url);
    proof {
        let c = cookie_args(
            match cookie_file {
                Some(p) => Some(p@),
                None => None,
            },
        );
        assert(mid =~= start + c);
        if separator {
            assert(views(args@) =~= start + c + seq!["--"@] + seq![youtube_watch_url(video_id@)]);
        } else {
            assert(views(args@) =~= start + c + Seq::<Seq<char>>::empty() + seq![youtube_watch_url(video_id@)]);
        }
    }
}

/// The arguments that make yt-dlp write the audio of `video_id` to its output, with the
/// cookie file `cookie_file` where there is one.
pub fn ytdlp_stream_args(video_id: &str, cookie_file: Option<&str>) -> (r: Vec<String>)
    ensures
        views(r@) == stream_args(
            video_id@,
            match cookie_file {
                Some(p) => Some(p@),
                None => None,
            },
        ),
{
    let fixed: [&str; 11] = [
        "--format",
        YTDLP_AUDIO_FORMAT,
        "--no-playlist",
        "--no-warnings",
        "--quiet",
        "--output",
        "-",
        "--add-header",
        "referer:https://music.youtube.com",
        "--add-header",
        "user-agent:Mozilla/5.0",
    ];
    let mut args = to_strings(&fixed);
    assert(key_views(fixed@) =~= seq![
        "--format"@,
        YTDLP_AUDIO_FORMAT@,
        "--no-playlist"@,
        "--no-warnings"@,
        "--quiet"@,
        "--output"@,
        "-"@,
        "--add-header"@,
        "referer:https://music.youtube.com"@,
        "--add-header"@,
        "user-agent:Mozilla/5.0"@,
    ]);
    push_cookie_and_target(&mut args, video_id, cookie_file, true);
    args
}

/// The arguments that make yt-dlp print the stream address of `video_id`, with the cookie
/// file `cookie_file` where there is one.
pub fn ytdlp_resolve_args(video_id: &str, cookie_file: Option<&str>) -> (r: Vec<String>)
    ensures
        views(r@) == resolve_args(
            video_id@,
            match cookie_file {
                Some(p) => Some(p@),
                None => None,
            },
        ),
{
    let fixed: [&str; 10] = [
        "--format",
        YTDLP_AUDIO_FORMAT,
        "--no-playlist",
        "--no-warnings",
        "--quiet",
        "--get-url",
        "--add-header",
        "referer:https://music.youtube.com",
        "--add-header",
        "user-agent:Mozilla/5.0",
    ];
    let mut args = to_strings(&fixed);
    assert(key_views(fixed@) =~= seq![
        "--format"@,
        YTDLP_AUDIO_FORMAT@,
        "--no-playlist"@,
        "--no-warnings"@,
        "--quiet"@,
        "--get-url"@,
        "--add-header"@,
        "referer:https://music.youtube.com"@,
        "--add-header"@,
        "user-agent:Mozilla/5.0"@,
    ]);
    push_cookie_and_target(&mut args, video_id, cookie_file, false);
    args
}

/// The stream address that yt-dlp printed: its last output line, trimmed.
pub open spec fn printed_url(stdout: Seq<char>) -> Seq<char> {
    let ls = lines(stdout);
    if ls.len() == 0 {
        Seq::empty()
    } else {
        trim(ls.last())
    }
}

/// The stream address in yt-dlp's output; an error where the output holds none.
pub fn stream_url_from_output(stdout: &str) -> (r: Result<String, String>)
    ensures
        r matches Ok(u) ==> u@ == printed_url(stdout@) && u@.len() > 0,
        r matches Err(e) ==> printed_url(stdout@).len() == 0 && e@ == "No playable stream found"@,
{
    let v = chars_of(stdout);
    let w = line_windows(&v, 0, v.len());
    assert(v@.subrange(0, v@.len() as int) =~= v@);
    let url = if w.len() == 0 {
        String::new()
    } else {
        let (a, b) = w[w.len() - 1];
        assert(w@[w@.len() - 1] == (a, b));
        let (c, d) = trim_window(&v, a, b, &CharClass::Whitespace);
        string_of(&v, c, d)
    };
    if url.as_str().unicode_len() == 0 {
        return Err("No playable stream found".to_owned());
    }
    Ok(url)
}

/// What a failed yt-dlp run reports: its error output, trimmed, or a general message where
/// it wrote none.
pub fn ytdlp_failure_message(stderr: &str) -> (r: String)
    ensures
        r@ == if trim(stderr@).len() == 0 {
            "yt-dlp could not resolve a playable stream"@
        } else {
            trim(stderr@)
        },
{
    let v = chars_of(stderr);
    let (a, b) = trim_window(&v, 0, v.len(), &CharClass::Whitespace);
    assert(v@.subrange(0, v@.len() as int) =~= v@);
    if a == b {
        "yt-dlp could not resolve a playable stream".to_owned()
    } else {
        string_of(&v, a, b)
    }
}

pub open spec fn both_failed(anonymous: Seq<char>, with_cookies: Seq<char>) -> Seq<char> {
    "yt-dlp failed without cookies: "@ + anonymous + "; with cookies: "@ + with_cookies
}

/// The outcome of resolving a stream: the first try without cookies gave `first`; the
/// second, with cookies, made only where there are cookies, gave `second`.
pub open spec fn resolve_outcome(
    has_cookies: bool,
    first: Result<String, String>,
    second: Result<String, String>,
    r: Result<(String, bool), String>,
) -> bool {
    match first {
        Ok(u) => r matches Ok((v, c)) && v@ == u@ && !c,
        Err(e1) => if !has_cookies {
            r matches Err(e) && e@ == e1@
        } else {
            match second {
                Ok(u) => r matches Ok((v, c)) && v@ == u@ && c,
                Err(e2) => r matches Err(e) && e@ == both_failed(e1@, e2@),
            }
        },
    }
}

/// Resolves a stream with `attempt`, which runs yt-dlp without cookies (`false`) or with
/// them (`true`): first without, then, where that fails and there are cookies, with them.
/// Gives the address and whether the cookies were used.
pub fn resolve_stream_url<F: Fn(bool) -> Result<String, String>>(has_cookies: bool, attempt: F) -> (r: Result<(String, bool), String>)
    requires
        forall|b: bool| call_requires(attempt, (b,)),
    ensures
        exists|first: Result<String, String>, second: Result<String, String>|
            call_ensures(attempt, (false,), first)
            && (first is Err && has_cookies ==> call_ensures(attempt, (true,), second))
            && resolve_outcome(has_cookies, first, second, r),
{
    let first = attempt(false);
    match first {
        Ok(u) => {
            let r = Ok((u, false));
            assert(resolve_outcome(has_cookies, first, first, r));
            r
        },
        Err(e1) => {
            if !has_cookies {
                let r = Err(e1);
                assert(resolve_outcome(has_cookies, first, first, r));
                return r;
            }
            let second = attempt(true);
            match second {
                Ok(u) => {
                    let r = Ok((u, true));
                    assert(resolve_outcome(has_cookies, first, second, r));
                    r
                },
                Err(e2) => {
                    let mut e = "yt-dlp failed without cookies: ".to_owned();
                    push_str(&mut e, e1.as_str());
                    push_str(&mut e, "; with cookies: ");
                    push_str(&mut e, e2.as_str());
                    let r = Err(e);
                    assert(resolve_outcome(has_cookies, first, second, r));
                    r
                },
            }
        },
    }
}

/// The address of the local stream server for a track, where the server runs.
pub open spec fn spec_fallback_url(base: Option<Seq<char>>, video_id: Seq<char>, uses_cookies: bool) -> Seq<char> {
    match base {
        None => Seq::empty(),
        Some(b) => b + "/stream/"@ + video_id + if uses_cookies {
            "?auth=1"@
        } else {
            Seq::empty()
        },
    }
}

/// The address at which the local stream server serves `video_id`, asking it to use the
/// cookies where the stream needed them; empty where the server does not run.
pub fn fallback_url(base: Option<&str>, video_id: &str, uses_cookies: bool) -> (r: String)
    ensures
        r@ == spec_fallback_url(
            match base {
                Some(b) => Some(b@),
                None => None,
            },
            video_id@,
            uses_cookies,
        ),
{
    match base {
        None => String::new(),
        Some(b) => {
            let mut r = b.to_owned();
            push_str(&mut r, "/stream/");
            push_str(&mut r, video_id);
            if uses_cookies {
                push_str(&mut r, "?auth=1");
            }
            r
        },
    }
}

/// A resolved stream address and the time, in milliseconds since the Unix epoch, until
/// which it is used again.
pub struct CachedStream {
    pub url: String,
    pub expires_at: u64,
}

/// The stream addresses resolved lately, by video id.
pub struct StreamCache {
    entries: Vec<(String, CachedStream)>,
}

/// When an address stored at `now` stops being used.  The clock is not expected to come
/// near the end of `u64`; the sum wraps as unsigned arithmetic does.
pub open spec fn expiry(now: u64) -> u64 {
    now.wrapping_add(STREAM_CACHE_TTL_MS)
}

/// What a stream cache holds: for each video id, the address and its expiry.
pub open spec fn entries_map(e: Seq<(String, CachedStream)>) -> Map<Seq<char>, (Seq<char>, u64)>
    decreases e.len(),
{
    if e.len() == 0 {
        Map::empty()
    } else {
        entries_map(e.drop_last()).insert(e.last().0@, (e.last().1.url@, e.last().1.expires_at))
    }
}

/// The address that a cache with contents `m` gives for `video_id` at time `now`.
pub open spec fn live_url(m: Map<Seq<char>, (Seq<char>, u64)>, video_id: Seq<char>, now: u64) -> Option<Seq<char>> {
    if m.contains_key(video_id) && m[video_id].1 > now {
        Some(m[video_id].0)
    } else {
        None
    }
}

/// The contents of a cache after storing `url` for `video_id` at time `now`: an empty
/// address is not stored.
pub open spec fn remembered(
    m: Map<Seq<char>, (Seq<char>, u64)>,
    video_id: Seq<char>,
    url: Seq<char>,
    now: u64,
) -> Map<Seq<char>, (Seq<char>, u64)> {
    if url.len() == 0 {
        m
    } else {
        m.insert(video_id, (url, expiry(now)))
    }
}

impl View for StreamCache {
    type V = Map<Seq<char>, (Seq<char>, u64)>;

    closed spec fn view(&self) -> Map<Seq<char>, (Seq<char>, u64)> {
        entries_map(self.entries@)
    }
}

proof fn lemma_entries_map(e: Seq<(String, CachedStream)>, i: int)
    requires
        0 <= i < e.len(),
        forall|a: int, b: int| 0 <= a < b < e.len() ==> e[a].0@ != e[b].0@,
    ensures
        entries_map(e).contains_key(e[i].0@),
        entries_map(e)[e[i].0@] == (e[i].1.url@, e[i].1.expires_at),
    decreases e.len(),
{
    if i < e.len() - 1 {
        lemma_entries_map(e.drop_last(), i);
    }
}

proof fn lemma_entries_map_keys(e: Seq<(String, CachedStream)>, k: Seq<char>)
    requires
        entries_map(e).contains_key(k),
    ensures
        exists|i: int| 0 <= i < e.len() && e[i].0@ == k,
    decreases e.len(),
{
    if e.last().0@ != k {
        lemma_entries_map_keys(e.drop_last(), k);
        let i = choose|i: int| 0 <= i < e.len() - 1 && e.drop_last()[i].0@ == k;
        assert(e[i].0@ == k);
    } else {
        assert(e[e.len() - 1].0@ == k);
    }
}

proof fn lemma_entries_map_update(e: Seq<(String, CachedStream)>, i: int, x: (String, CachedStream))
    requires
        0 <= i < e.len(),
        x.0@ == e[i].0@,
        forall|a: int, b: int| 0 <= a < b < e.len() ==> e[a].0@ != e[b].0@,
    ensures
        entries_map(e.update(i, x)) == entries_map(e).insert(x.0@, (x.1.url@, x.1.expires_at)),
    decreases e.len(),
{
    let u = e.update(i, x);
    if i == e.len() - 1 {
        assert(u.drop_last() =~= e.drop_last());
        assert(entries_map(u) =~= entries_map(e).insert(x.0@, (x.1.url@, x.1.expires_at)));
    } else {
        assert(u.drop_last() =~= e.drop_last().update(i, x));
        lemma_entries_map_update(e.drop_last(), i, x);
        assert(e.last().0@ != x.0@);
        assert(entries_map(u) =~= entries_map(e).insert(x.0@, (x.1.url@, x.1.expires_at)));
    }
}

impl StreamCache {
    /// The ids of the entries are distinct.
    pub closed spec fn well_formed(&self) -> bool {
        forall|a: int, b: int| 0 <= a < b < self.entries@.len() ==> self.entries@[a].0@ != self.entries@[b].0@
    }

    /// An empty cache.
    pub fn new() -> (c: StreamCache)
        ensures
            c.well_formed(),
            c@ == Map::<Seq<char>, (Seq<char>, u64)>::empty(),
    {
        StreamCache { entries: Vec::new() }
    }

    fn position(&self, video_id: &str) -> (r: Option<usize>)
        requires
            self.well_formed(),
        ensures
            r matches Some(i) ==> i < self.entries@.len() && self.entries@[i as int].0@ == video_id@,
            r is None ==> !self@.contains_key(video_id@),
    {
        let mut i: usize = 0;
        while i < self.entries.len()
            invariant
                i <= self.entries@.len(),
                forall|j: int| 0 <= j < i ==> self.entries@[j].0@ != video_id@,
            decreases self.entries@.len() - i,
        {
            if crate::text::str_eq(self.entries[i].0.as_str(), video_id) {
                return Some(i);
            }
            i = i + 1;
        }
        proof {
            if self@.contains_key(video_id@) {
                lemma_entries_map_keys(self.entries@, video_id@);
            }
        }
        None
    }

    /// The address stored for `video_id`, where it is still used at time `now`.
    pub fn lookup(&self, video_id: &str, now: u64) -> (r: Option<String>)
        requires
            self.well_formed(),
        ensures
            r matches Some(u) ==> live_url(self@, video_id@, now) == Some(u@),
            r is None ==> live_url(self@, video_id@, now) is None,
    {
        match self.position(video_id) {
            Some(i) => {
                proof {
                    lemma_entries_map(self.entries@, i as int);
                }
                let item = &self.entries[i].1;
                if item.expires_at > now {
                    Some(item.url.clone())
                } else {
                    None
                }
            },
            None => None,
        }
    }

    /// Stores `url` for `video_id` at time `now`, replacing what was stored for it; an empty
    /// address is not stored.
    pub fn remember(&mut self, video_id: &str, url: &str, now: u64)
        requires
            old(self).well_formed(),
        ensures
            final(self).well_formed(),
            final(self)@ == remembered(old(self)@, video_id@, url@, now),
    {
        if url.unicode_len() == 0 {
            return;
        }
        let item = CachedStream { url: url.to_owned(), expires_at: now.wrapping_add(STREAM_CACHE_TTL_MS) };
        match self.position(video_id) {
            Some(i) => {
                let x = (video_id.to_owned(), item);
                proof {
                    lemma_entries_map_update(self.entries@, i as int, x);
                }
                self.entries.set(i, x);
            },
            None => {
                let x = (video_id.to_owned(), item);
                let ghost before = self.entries@;
                self.entries.push(x);
                proof {
                    assert(self.entries@.drop_last() =~= before);
                    assert forall|a: int, b: int| 0 <= a < b < self.entries@.len()
                        implies self.entries@[a].0@ != self.entries@[b].0@ by {
                        if b == self.entries@.len() - 1 {
                            lemma_entries_map(before, a);
                        }
                    }
                }
            },
        }
    }
}

/// A stored address is given back until it expires: after storing a non-empty `url` for
/// `video_id` at time `t`, a lookup of `video_id` at any time before `expiry(t)` gives `url`.
pub proof fn lemma_lookup_after_remember(
    m: Map<Seq<char>, (Seq<char>, u64)>,
    video_id: Seq<char>,
    url: Seq<char>,
    t: u64,
    later: u64,
)
    requires
        url.len() > 0,
        later < expiry(t),
    ensures
        live_url(remembered(m, video_id, url, t), video_id, later) == Some(url),
{
}

/// Storing an address for one video leaves what every other video gives unchanged.
pub proof fn lemma_remember_keeps_others(
    m: Map<Seq<char>, (Seq<char>, u64)>,
    video_id: Seq<char>,
    other: Seq<char>,
    url: Seq<char>,
    t: u64,
    now: u64,
)
    requires
        other != video_id,
    ensures
        live_url(remembered(m, video_id, url, t), other, now) == live_url(m, other, now),
{
}

/// An address is no longer given once its expiry has come.
pub proof fn lemma_expired_not_given(m: Map<Seq<char>, (Seq<char>, u64)>, video_id: Seq<char>, now: u64)
    requires
        m.contains_key(video_id),
        now >= m[video_id].1,
    ensures
        live_url(m, video_id, now) is None,
{
}

/// The address stored for `video_id` where it is still used now.
pub fn cached_stream_url(cache: &StreamCache, video_id: &str) -> (r: Option<String>)
    requires
        cache.well_formed(),
    ensures
        exists|t: std::time::SystemTime|
            crate::models::opt_view(r) == live_url(cache@, video_id@, #[trigger] crate::clock::clock_ms(t)),
{
    let now = now_ms();
    cache.lookup(video_id, now)
}

/// Stores `url` for `video_id` as of now.
pub fn remember_stream_url(cache: &mut StreamCache, video_id: &str, url: &str)
    requires
        old(cache).well_formed(),
    ensures
        final(cache).well_formed(),
        exists|now: u64| final(cache)@ == #[trigger] remembered(old(cache)@, video_id@, url@, now),
{
    let now = now_ms();
    cache.remember(video_id, url, now);
}

/// What `native_playback_url` does where the cache, read at time `now`, gives `cached` for
/// the video: a live address comes back and the cache stays as it was; else `resolved`,
/// what the resolver gave, comes back, and an address it gave is stored at time `later`.
pub open spec fn playback_outcome(
    old_cache: Map<Seq<char>, (Seq<char>, u64)>,
    video_id: Seq<char>,
    cached: Option<Seq<char>>,
    resolved: Result<Seq<char>, Seq<char>>,
    later: u64,
    r: Result<Seq<char>, Seq<char>>,
    new_cache: Map<Seq<char>, (Seq<char>, u64)>,
) -> bool {
    match cached {
        Some(u) => r == Ok::<Seq<char>, Seq<char>>(u) && new_cache == old_cache,
        None => r == resolved && match resolved {
            Ok(u) => new_cache == remembered(old_cache, video_id, u, later),
            Err(_) => new_cache == old_cache,
        },
    }
}

/// The view of a `Result` of strings.
pub open spec fn result_view(r: Result<String, String>) -> Result<Seq<char>, Seq<char>> {
    match r {
        Ok(u) => Ok(u@),
        Err(e) => Err(e@),
    }
}

/// The stream address for `video_id`: the one stored where it is still used, else the one
/// that `resolve` gives, which is then stored.  Where `resolve` fails, its error comes back
/// and the cache is left as it was.  `resolve` is called only where the cache has no live
/// address for the video.
pub fn native_playback_url<F: FnOnce() -> Result<String, String>>(
    cache: &mut StreamCache,
    video_id: &str,
    resolve: F,
) -> (r: Result<String, String>)
    requires
        old(cache).well_formed(),
        call_requires(resolve, ()),
    ensures
        final(cache).well_formed(),
        exists|t: std::time::SystemTime, later: std::time::SystemTime, res: Result<String, String>|
            #![trigger clock_ms(t), clock_ms(later), result_view(res)]
            (live_url(old(cache)@, video_id@, clock_ms(t)) is None ==> call_ensures(resolve, (), res))
            && playback_outcome(
                old(cache)@,
                video_id@,
                live_url(old(cache)@, video_id@, clock_ms(t)),
                result_view(res),
                clock_ms(later),
                result_view(r),
                final(cache)@,
            ),
{
    let now = now_ms();
    let ghost t = choose|t: std::time::SystemTime| now == clock_ms(t);
    match cache.lookup(video_id, now) {
        Some(u) => {
            let r = Ok(u);
            assert(result_view(r) == Ok::<Seq<char>, Seq<char>>(u@));
            assert(playback_outcome(old(cache)@, video_id@, live_url(old(cache)@, video_id@, clock_ms(t)),
                result_view(r), clock_ms(t), result_view(r), final(cache)@));
            return r;
        },
        None => {},
    }
    let res = resolve();
    let ghost rv = result_view(res);
    match res {
        Ok(u) => {
            let later = now_ms();
            let ghost tl = choose|tl: std::time::SystemTime| later == clock_ms(tl);
            cache.remember(video_id, u.as_str(), later);
            let r = Ok(u);
            assert(result_view(r) == rv);
            assert(playback_outcome(old(cache)@, video_id@, live_url(old(cache)@, video_id@, clock_ms(t)),
                rv, clock_ms(tl), result_view(r), final(cache)@));
            r
        },
        Err(e) => {
            let r = Err(e);
            assert(result_view(r) == rv);
            assert(playback_outcome(old(cache)@, video_id@, live_url(old(cache)@, video_id@, clock_ms(t)),
                rv, clock_ms(t), result_view(r), final(cache)@));
            r
        },
    }
}

/// The title that the player shows for a track: `title - artist`, or the title alone where
/// the artist is blank; trimmed, and `Yolite` where that leaves nothing.
pub open spec fn spec_player_title(title: Seq<char>, artist: Seq<char>) -> Seq<char> {
    let shown = if trim(artist).len() == 0 { title } else { title + " - "@ + artist };
    if trim(shown).len() == 0 {
        "Yolite"@
    } else {
        trim(shown)
    }
}

/// The title that the player shows for a track.
pub fn player_title(title: &str, artist: &str) -> (r: String)
    ensures
        r@ == spec_player_title(title@, artist@),
{
    let a = chars_of(artist);
    let (aa, ab) = trim_window(&a, 0, a.len(), &CharClass::Whitespace);
    assert(a@.subrange(0, a@.len() as int) =~= a@);
    let mut shown = title.to_owned();
    if aa < ab {
        push_str(&mut shown, " - ");
        push_str(&mut shown, artist);
    }
    let v = chars_of(shown.as_str());
    let (b, e) = trim_window(&v, 0, v.len(), &CharClass::Whitespace);
    assert(v@.subrange(0, v@.len() as int) =~= v@);
    if b == e {
        "Yolite".to_owned()
    } else {
        string_of(&v, b, e)
    }
}

} // verus!
