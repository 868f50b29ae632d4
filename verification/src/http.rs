//! The two small HTTP servers of the app: the local audio stream server and the phone
//! controller.  What a request asks for and what the responses say is decided here; the
//! sockets and the yt-dlp processes are the app's.
use vstd::prelude::*;
use crate::cookies::byte_len;
use crate::controller::{safe_download_name, spec_safe_download_name};
use crate::desktop::{is_remote_action, remote_actions};
use crate::ids::{spec_valid_video_id, valid_video_id};
use crate::innertube::find_bytes;
use crate::text::{chars_of, lead, lead_count, lemma_lead_stops, line_windows, lines, push_str, split_char, split_once, split_windows, starts_with, string_of, strip_prefix, trim_start_by, u64_to_decimal, decimal, vec_eq_str, window_find, CharClass};

verus! {

/// The end of the head of an HTTP request.
pub open spec fn head_end() -> Seq<u8> {
    seq![13u8, 10u8, 13u8, 10u8]
}

/// The most bytes of a request that are read.
pub const MAX_REQUEST_BYTES: usize = 8192;

/// Whether enough of a request has been read: its head is complete, or it is longer than
/// `MAX_REQUEST_BYTES`.
pub fn request_complete(request: &[u8]) -> (r: bool)
    ensures
        r == (find_bytes(request@, head_end(), 0) is Some || request@.len() > MAX_REQUEST_BYTES),
{
    if request.len() > MAX_REQUEST_BYTES {
        return true;
    }
    let end: [u8; 4] = [13, 10, 13, 10];
    assert(end@ =~= head_end());
    crate::innertube::find_bytes_from(request, &end, 0).is_some()
}

/// The first line of a request.
pub open spec fn request_line(request: Seq<char>) -> Option<Seq<char>> {
    let ls = lines(request);
    if ls.len() > 0 {
        Some(ls[0])
    } else {
        None
    }
}

/// The first white-space separated word of `s`, and what follows it.
pub open spec fn first_word(s: Seq<char>) -> Option<(Seq<char>, Seq<char>)> {
    let t = trim_start_by(s, CharClass::Whitespace);
    if t.len() == 0 {
        None
    } else {
        let n = lead(t, CharClass::NotWhitespace) as int;
        Some((t.take(n), t.skip(n)))
    }
}

/// Word `n` (from 0) of `s`, as `str::split_whitespace` gives them.
pub open spec fn word_at(s: Seq<char>, n: nat) -> Option<Seq<char>>
    decreases n,
{
    match first_word(s) {
        None => None,
        Some((w, rest)) => if n == 0 {
            Some(w)
        } else {
            word_at(rest, (n - 1) as nat)
        },
    }
}

/// A request path without its query.
pub open spec fn path_of(target: Seq<char>) -> Seq<char> {
    match split_once(target, "?"@) {
        Some((p, _)) => p,
        None => target,
    }
}

/// The query of a request target asks for the stream with cookies.
pub open spec fn asks_for_cookies(target: Seq<char>) -> bool {
    match split_once(target, "?"@) {
        Some((_, q)) => split_char(q, '&').contains("auth=1"@),
        None => false,
    }
}

/// The window of the first word of `v[lo..hi]`.
fn first_word_window(v: &Vec<char>, lo: usize, hi: usize) -> (r: Option<(usize, usize)>)
    requires
        lo <= hi <= v.len(),
    ensures
        match r {
            Some((a, b)) => lo <= a < b <= hi && first_word(v@.subrange(lo as int, hi as int))
                == Some((v@.subrange(a as int, b as int), v@.subrange(b as int, hi as int))),
            None => first_word(v@.subrange(lo as int, hi as int)) is None,
        },
{
    let ghost s = v@.subrange(lo as int, hi as int);
    let a = lo + lead_count(v, lo, hi, &CharClass::Whitespace);
    proof {
        lemma_lead_stops(s, CharClass::Whitespace);
        assert(trim_start_by(s, CharClass::Whitespace) =~= v@.subrange(a as int, hi as int));
    }
    if a == hi {
        return None;
    }
    let n = lead_count(v, a, hi, &CharClass::NotWhitespace);
    let b = a + n;
    proof {
        let t = v@.subrange(a as int, hi as int);
        assert(t[0] == s[a - lo]);
        assert(t.take(n as int) =~= v@.subrange(a as int, b as int));
        assert(t.skip(n as int) =~= v@.subrange(b as int, hi as int));
    }
    Some((a, b))
}

/// The window of word `n` of `v[lo..hi]`.
fn word_window(v: &Vec<char>, lo: usize, hi: usize, n: usize) -> (r: Option<(usize, usize)>)
    requires
        lo <= hi <= v.len(),
    ensures
        match r {
            Some((a, b)) => lo <= a <= b <= hi && word_at(v@.subrange(lo as int, hi as int), n as nat)
                == Some(v@.subrange(a as int, b as int)),
            None => word_at(v@.subrange(lo as int, hi as int), n as nat) is None,
        },
    decreases n,
{
    match first_word_window(v, lo, hi) {
        None => None,
        Some((a, b)) => {
            if n == 0 {
                Some((a, b))
            } else {
                word_window(v, b, hi, n - 1)
            }
        },
    }
}

/// The first line of `request`, as a window of `v`, its characters.
fn request_line_window(v: &Vec<char>) -> (r: Option<(usize, usize)>)
    ensures
        match r {
            Some((a, b)) => a <= b <= v.len() && request_line(v@) == Some(v@.subrange(a as int, b as int)),
            None => request_line(v@) is None,
        },
{
    let w = line_windows(v, 0, v.len());
    assert(v@.subrange(0, v@.len() as int) =~= v@);
    if w.len() == 0 {
        None
    } else {
        let (a, b) = w[0];
        assert(w@[0] == (a, b));
        Some((a, b))
    }
}

/// Splits the target `v[a..b]` at its first `?`: the end of the path, and the start of the
/// query where there is one.
fn split_target(v: &Vec<char>, a: usize, b: usize) -> (r: (usize, Option<usize>))
    requires
        a <= b <= v.len(),
    ensures
        a <= r.0 <= b,
        v@.subrange(a as int, r.0 as int) == path_of(v@.subrange(a as int, b as int)),
        match r.1 {
            Some(q) => r.0 < q <= b && split_once(v@.subrange(a as int, b as int), "?"@) == Some((
                v@.subrange(a as int, r.0 as int),
                v@.subrange(q as int, b as int),
            )),
            None => r.0 == b && split_once(v@.subrange(a as int, b as int), "?"@) is None,
        },
{
    proof {
        reveal_strlit("?");
    }
    match window_find(v, a, b, "?") {
        Some(i) => {
            proof {
                let t = v@.subrange(a as int, b as int);
                assert(t.take(i - a) =~= v@.subrange(a as int, i as int));
                assert(t.skip(i - a + 1) =~= v@.subrange(i + 1, b as int));
            }
            (i, Some(i + 1))
        },
        None => {
            assert(v@.subrange(a as int, b as int) =~= v@.subrange(a as int, b as int));
            (b, None)
        },
    }
}

/// Whether one of the `&`-separated parts of the query `v[a..b]` is `auth=1`.
fn query_asks_for_cookies(v: &Vec<char>, a: usize, b: usize) -> (r: bool)
    requires
        a <= b <= v.len(),
    ensures
        r == split_char(v@.subrange(a as int, b as int), '&').contains("auth=1"@),
{
    let parts = split_windows(v, a, b, '&');
    let ghost ps = split_char(v@.subrange(a as int, b as int), '&');
    let mut i: usize = 0;
    while i < parts.len()
        invariant
            ps == split_char(v@.subrange(a as int, b as int), '&'),
            parts@.len() == ps.len(),
            a <= b <= v.len(),
            forall|k: int|
                #![trigger parts@[k]]
                0 <= k < parts@.len() ==> a <= parts@[k].0 <= parts@[k].1 <= b
                    && v@.subrange(parts@[k].0 as int, parts@[k].1 as int) == ps[k],
            i <= parts@.len(),
            forall|k: int| 0 <= k < i ==> ps[k] != "auth=1"@,
        decreases parts@.len() - i,
    {
        let (c, d) = parts[i];
        assert(parts@[i as int] == (c, d));
        if vec_eq_str(v, c, d, "auth=1") {
            assert(ps[i as int] == "auth=1"@);
            assert(ps.contains("auth=1"@));
            return true;
        }
        i = i + 1;
    }
    false
}

/// What a request to the stream server asks for.
pub enum StreamRoute {
    /// No request line: the connection is dropped.
    Ignore,
    /// Not a `GET` with a target.
    MethodNotAllowed,
    /// A target outside `/stream/`.
    NotFound,
    /// A stream of something that is not a video id.
    InvalidVideoId,
    /// The audio of a video, with the cookies or without.
    Stream { video_id: String, use_cookies: bool },
}

/// What a request to the stream server asks for, as text.
pub ghost enum StreamTarget {
    Ignore,
    MethodNotAllowed,
    NotFound,
    InvalidVideoId,
    Stream(Seq<char>, bool),
}

impl View for StreamRoute {
    type V = StreamTarget;

    open spec fn view(&self) -> StreamTarget {
        match self {
            StreamRoute::Ignore => StreamTarget::Ignore,
            StreamRoute::MethodNotAllowed => StreamTarget::MethodNotAllowed,
            StreamRoute::NotFound => StreamTarget::NotFound,
            StreamRoute::InvalidVideoId => StreamTarget::InvalidVideoId,
            StreamRoute::Stream { video_id, use_cookies } => StreamTarget::Stream(video_id@, *use_cookies),
        }
    }
}

/// How the stream server answers `request`.
pub open spec fn stream_target(request: Seq<char>) -> StreamTarget {
    match request_line(request) {
        None => StreamTarget::Ignore,
        Some(line) => match (word_at(line, 0), word_at(line, 1)) {
            (Some(method), Some(target)) => if method != "GET"@ {
                StreamTarget::MethodNotAllowed
            } else {
                match strip_prefix(path_of(target), "/stream/"@) {
                    None => StreamTarget::NotFound,
                    Some(id) => if !spec_valid_video_id(id) {
                        StreamTarget::InvalidVideoId
                    } else {
                        StreamTarget::Stream(id, asks_for_cookies(target))
                    },
                }
            },
            _ => StreamTarget::MethodNotAllowed,
        },
    }
}

/// What a request to the stream server asks for: `GET /stream/<video id>`, with `auth=1`
/// among the query's parts to use the cookies.
pub fn route_stream_request(request: &str) -> (r: StreamRoute)
    ensures
        r@ == stream_target(request@),
{
    let v = chars_of(request);
    let (la, lb) = match request_line_window(&v) {
        None => {
            return StreamRoute::Ignore;
        },
        Some(w) => w,
    };
    let ghost line = v@.subrange(la as int, lb as int);
    let (ma, mb) = match word_window(&v, la, lb, 0) {
        None => {
            return StreamRoute::MethodNotAllowed;
        },
        Some(w) => w,
    };
    let (ta, tb) = match word_window(&v, la, lb, 1) {
        None => {
            return StreamRoute::MethodNotAllowed;
        },
        Some(w) => w,
    };
    if !vec_eq_str(&v, ma, mb, "GET") {
        return StreamRoute::MethodNotAllowed;
    }
    let ghost target = v@.subrange(ta as int, tb as int);
    let (pe, query) = split_target(&v, ta, tb);
    let use_cookies = match query {
        Some(q) => query_asks_for_cookies(&v, q, tb),
        None => false,
    };
    assert(use_cookies == asks_for_cookies(target));
    proof {
        reveal_strlit("/stream/");
    }
    let prefix = chars_of("/stream/");
    if pe - ta < prefix.len() || !crate::text::window_eq(&v, ta, ta + prefix.len(), &prefix) {
        proof {
            let p = v@.subrange(ta as int, pe as int);
            if starts_with(p, "/stream/"@) {
                assert(v@.subrange(ta as int, ta + 8) =~= p.take(8));
            }
        }
        return StreamRoute::NotFound;
    }
    let video_id = string_of(&v, ta + prefix.len(), pe);
    proof {
        let p = v@.subrange(ta as int, pe as int);
        assert(p.take(8) =~= v@.subrange(ta as int, ta + 8));
        assert(p.skip(8) =~= v@.subrange(ta + 8, pe as int));
    }
    if !valid_video_id(video_id.as_str()) {
        return StreamRoute::InvalidVideoId;
    }
    StreamRoute::Stream { video_id, use_cookies }
}

/// A `Vec` of the characters of `a` followed by those of `b` and `c`.
fn chars3(a: &str, b: &str, c: &str) -> (r: Vec<char>)
    ensures
        r@ == a@ + b@ + c@,
{
    let mut s = a.to_owned();
    push_str(&mut s, b);
    push_str(&mut s, c);
    chars_of(s.as_str())
}

/// What a request to the phone controller asks for.
pub enum ControllerRoute {
    /// No request line or no target: the connection is dropped.
    Ignore,
    /// The controller page.
    Page,
    /// The playback state.
    State,
    /// A remote action.
    Control(String),
    /// The audio of a video as a download.
    Download(String),
    /// Anything else.
    NotFound,
}

/// What a request to the phone controller asks for, as text.
pub ghost enum ControllerTarget {
    Ignore,
    Page,
    State,
    Control(Seq<char>),
    Download(Seq<char>),
    NotFound,
}

impl View for ControllerRoute {
    type V = ControllerTarget;

    open spec fn view(&self) -> ControllerTarget {
        match self {
            ControllerRoute::Ignore => ControllerTarget::Ignore,
            ControllerRoute::Page => ControllerTarget::Page,
            ControllerRoute::State => ControllerTarget::State,
            ControllerRoute::Control(a) => ControllerTarget::Control(a@),
            ControllerRoute::Download(id) => ControllerTarget::Download(id@),
            ControllerRoute::NotFound => ControllerTarget::NotFound,
        }
    }
}

/// How the phone controller with secret `token` answers `request`.  Every path carries the
/// token; a control path names one of the remote actions.
pub open spec fn controller_target(request: Seq<char>, token: Seq<char>) -> ControllerTarget {
    match request_line(request) {
        None => ControllerTarget::Ignore,
        Some(line) => match word_at(line, 1) {
            None => ControllerTarget::Ignore,
            Some(target) => {
                let path = path_of(target);
                if path == "/controller/"@ + token {
                    ControllerTarget::Page
                } else if path == "/api/state/"@ + token {
                    ControllerTarget::State
                } else if strip_prefix(path, "/api/control/"@ + token + "/"@) is Some
                    && remote_actions().contains(strip_prefix(path, "/api/control/"@ + token + "/"@)->0) {
                    ControllerTarget::Control(strip_prefix(path, "/api/control/"@ + token + "/"@)->0)
                } else {
                    match strip_prefix(path, "/download/"@ + token + "/"@) {
                        Some(id) => ControllerTarget::Download(id),
                        None => ControllerTarget::NotFound,
                    }
                }
            },
        },
    }
}

/// The text after the prefix `p` of `v[lo..hi]`, where it starts with `p`.
fn window_after(v: &Vec<char>, lo: usize, hi: usize, p: &Vec<char>) -> (r: Option<String>)
    requires
        lo <= hi <= v.len(),
    ensures
        match r {
            Some(t) => strip_prefix(v@.subrange(lo as int, hi as int), p@) == Some(t@),
            None => strip_prefix(v@.subrange(lo as int, hi as int), p@) is None,
        },
{
    if !crate::text::has_prefix(v, lo, hi, p) {
        return None;
    }
    let t = string_of(v, lo + p.len(), hi);
    assert(v@.subrange(lo as int, hi as int).skip(p@.len() as int) =~= v@.subrange(lo + p.len(), hi as int));
    Some(t)
}

/// What a request to the phone controller with secret `token` asks for.
pub fn route_controller_request(request: &str, token: &str) -> (r: ControllerRoute)
    ensures
        r@ == controller_target(request@, token@),
{
    let v = chars_of(request);
    let (la, lb) = match request_line_window(&v) {
        None => {
            return ControllerRoute::Ignore;
        },
        Some(w) => w,
    };
    let (ta, tb) = match word_window(&v, la, lb, 1) {
        None => {
            return ControllerRoute::Ignore;
        },
        Some(w) => w,
    };
    let (pe, _) = split_target(&v, ta, tb);
    proof {
        reveal_strlit("");
    }
    let page = chars3("/controller/", token, "");
    assert(page@ =~= "/controller/"@ + token@);
    if crate::text::window_eq(&v, ta, pe, &page) {
        return ControllerRoute::Page;
    }
    let state = chars3("/api/state/", token, "");
    assert(state@ =~= "/api/state/"@ + token@);
    if crate::text::window_eq(&v, ta, pe, &state) {
        return ControllerRoute::State;
    }
    let control = chars3("/api/control/", token, "/");
    match window_after(&v, ta, pe, &control) {
        Some(action) => {
            if is_remote_action(action.as_str()) {
                return ControllerRoute::Control(action);
            }
        },
        None => {},
    }
    let download = chars3("/download/", token, "/");
    match window_after(&v, ta, pe, &download) {
        Some(id) => ControllerRoute::Download(id),
        None => ControllerRoute::NotFound,
    }
}

/// A plain-text response.
pub open spec fn plain_text_response(status: Seq<char>, body: Seq<char>) -> Seq<char> {
    "HTTP/1.1 "@ + status + "\r\ncontent-type: text/plain; charset=utf-8\r\ncontent-length: "@
        + decimal(byte_len(body)) + "\r\ncache-control: no-store\r\naccess-control-allow-origin: *\r\n\r\n"@
        + body
}

/// The whole of a plain-text response of the stream server.
pub fn http_text(status: &str, body: &str) -> (r: String)
    ensures
        r@ == plain_text_response(status@, body@),
{
    let mut r = "HTTP/1.1 ".to_owned();
    push_str(&mut r, status);
    push_str(&mut r, "\r\ncontent-type: text/plain; charset=utf-8\r\ncontent-length: ");
    let n = body.as_bytes().len();
    let d = u64_to_decimal(n as u64);
    push_str(&mut r, d.as_str());
    push_str(&mut r, "\r\ncache-control: no-store\r\naccess-control-allow-origin: *\r\n\r\n");
    push_str(&mut r, body);
    r
}

/// The head of a response of the phone controller.
pub open spec fn response_head(status: Seq<char>, content_type: Seq<char>, body_len: nat) -> Seq<char> {
    "HTTP/1.1 "@ + status + "\r\ncontent-type: "@ + content_type + "\r\ncontent-length: "@
        + decimal(body_len) + "\r\ncache-control: no-store\r\nconnection: close\r\n\r\n"@
}

/// The head of a response of the phone controller with a body of `body_len` bytes.
pub fn http_response_head(status: &str, content_type: &str, body_len: usize) -> (r: String)
    ensures
        r@ == response_head(status@, content_type@, body_len as nat),
{
    let mut r = "HTTP/1.1 ".to_owned();
    push_str(&mut r, status);
    push_str(&mut r, "\r\ncontent-type: ");
    push_str(&mut r, content_type);
    push_str(&mut r, "\r\ncontent-length: ");
    let d = u64_to_decimal(body_len as u64);
    push_str(&mut r, d.as_str());
    push_str(&mut r, "\r\ncache-control: no-store\r\nconnection: close\r\n\r\n");
    r
}

/// The head of the stream server's audio response; the audio follows it.
pub const STREAM_RESPONSE_HEAD: &'static str =
    "HTTP/1.1 200 OK\r\ncontent-type: audio/mp4\r\ncache-control: no-store\r\naccess-control-allow-origin: *\r\nconnection: close\r\n\r\n";

/// The head of a download response for a file named after `title`.
pub open spec fn download_head(title: Seq<char>) -> Seq<char> {
    "HTTP/1.1 200 OK\r\ncontent-type: audio/mp4\r\ncontent-disposition: attachment; filename=\""@ + title
        + ".m4a\"\r\ncache-control: no-store\r\nconnection: close\r\n\r\n"@
}

/// The head of the download response for a song saved as `title`.m4a.
pub fn download_response_head(title: &str) -> (r: String)
    ensures
        r@ == download_head(title@),
{
    let mut r = "HTTP/1.1 200 OK\r\ncontent-type: audio/mp4\r\ncontent-disposition: attachment; filename=\"".to_owned();
    push_str(&mut r, title);
    push_str(&mut r, ".m4a\"\r\ncache-control: no-store\r\nconnection: close\r\n\r\n");
    r
}

/// The track that the app last reported to the phone controller.
pub struct RemoteTrack {
    pub id: String,
    pub title: String,
    pub artist: String,
    pub thumbnail: String,
}

/// The file name of a download: the safe form of the reported track's title where that
/// track is the one downloaded, else `yolite-song`.
pub open spec fn spec_download_title(track: Option<(Seq<char>, Seq<char>)>, video_id: Seq<char>) -> Seq<char> {
    match track {
        Some((id, title)) => if id == video_id {
            spec_safe_download_name(title)
        } else {
            "yolite-song"@
        },
        None => "yolite-song"@,
    }
}

/// The name under which the audio of `video_id` is downloaded.
pub fn download_title(track: Option<&RemoteTrack>, video_id: &str) -> (r: String)
    ensures
        r@ == spec_download_title(
            match track {
                Some(t) => Some((t.id@, t.title@)),
                None => None,
            },
            video_id@,
        ),
{
    match track {
        Some(t) => {
            if crate::text::str_eq(t.id.as_str(), video_id) {
                safe_download_name(t.title.as_str())
            } else {
                "yolite-song".to_owned()
            }
        },
        None => "yolite-song".to_owned(),
    }
}

/// Whether the stream server tries again with the cookies: the first run, made without
/// them, sent no audio.
pub fn retry_with_cookies(bytes_sent: u64, used_cookies: bool) -> (r: bool)
    ensures
        r == (bytes_sent == 0 && !used_cookies),
{
    bytes_sent == 0 && !used_cookies
}

/// The stream server only ever streams a valid video id.
pub proof fn lemma_streamed_ids_are_valid(request: Seq<char>)
    ensures
        stream_target(request) matches StreamTarget::Stream(id, _) ==> spec_valid_video_id(id),
{
}

/// The phone controller answers only requests that carry its token: the page, the state, a
/// remote action or a download is served only for a path that holds the token, and a control
/// request only for one of the remote actions.
pub proof fn lemma_controller_needs_token(request: Seq<char>, token: Seq<char>)
    ensures
        controller_target(request, token) matches ControllerTarget::Control(a) ==> remote_actions().contains(a),
        match controller_target(request, token) {
            ControllerTarget::Ignore | ControllerTarget::NotFound => true,
            _ => exists|line: Seq<char>, target: Seq<char>, i: int|
                request_line(request) == Some(line) && word_at(line, 1) == Some(target)
                && crate::text::occurs_at(path_of(target), token, i),
        },
{
    match request_line(request) {
        None => {},
        Some(line) => match word_at(line, 1) {
            None => {},
            Some(target) => {
                let path = path_of(target);
                reveal_strlit("/controller/");
                reveal_strlit("/api/state/");
                reveal_strlit("/api/control/");
                reveal_strlit("/download/");
                if path == "/controller/"@ + token {
                    assert(path.subrange(12, 12 + token.len() as int) =~= token);
                    assert(crate::text::occurs_at(path, token, 12));
                } else if path == "/api/state/"@ + token {
                    assert(path.subrange(11, 11 + token.len() as int) =~= token);
                    assert(crate::text::occurs_at(path, token, 11));
                } else if strip_prefix(path, "/api/control/"@ + token + "/"@) is Some
                    && remote_actions().contains(strip_prefix(path, "/api/control/"@ + token + "/"@)->0) {
                    let p = "/api/control/"@ + token + "/"@;
                    assert(path.take(p.len() as int) == p);
                    assert(path.subrange(13, 13 + token.len() as int) =~= p.subrange(13, 13 + token.len() as int));
                    assert(p.subrange(13, 13 + token.len() as int) =~= token);
                    assert(crate::text::occurs_at(path, token, 13));
                } else if strip_prefix(path, "/download/"@ + token + "/"@) is Some {
                    let p = "/download/"@ + token + "/"@;
                    assert(path.take(p.len() as int) == p);
                    assert(path.subrange(10, 10 + token.len() as int) =~= p.subrange(10, 10 + token.len() as int));
                    assert(p.subrange(10, 10 + token.len() as int) =~= token);
                    assert(crate::text::occurs_at(path, token, 10));
                }
            },
        },
    }
}

} // verus!
