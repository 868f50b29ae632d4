//! Choosing the account that a saved session uses.
use vstd::prelude::*;
use crate::cookies::views;
use crate::dedupe::contains_str;
use crate::ids::{spec_validate_user_id, validate_user_id};
use crate::models::{playlist_views, Playlist, PlaylistPayload};
use crate::text::{lowercase, select, to_lowercase, trim, trimmed};
use crate::cookies::{byte_len, lemma_views_push};
use crate::ids::{browser_cookie_sources, browser_names, spec_validate_channel_id, validate_channel_id, MUSIC_COOKIE_IMPORT_PROBE_URL};
use crate::json::key_views;
use crate::text::{eq_ignore_ascii_case, join, join_strings, push_str, chars_of, string_of, trim_window, window_eq_ignore_ascii_case, CharClass};

verus! {

/// Titles of playlists that mark the account that the app is meant for.
pub open spec fn account_hint_playlists() -> Seq<Seq<char>> {
    seq![
        "Liked Music"@,
        "2025 Recap"@,
        "Jordy playlist"@,
        "Dancing"@,
        "Liked songs (Spotify)"@,
        "ROCK"@,
        "SPACE KEES"@,
    ]
}

/// Some playlist's title is `title` in lower case.
pub open spec fn has_lower_title(ps: Seq<Playlist>, title: Seq<char>) -> bool {
    exists|j: int| 0 <= j < ps.len() && lowercase(ps[j].title) == title
}

/// The hint titles that the playlists carry, compared in lower case.
pub open spec fn matched_hints(ps: Seq<Playlist>) -> Seq<Seq<char>> {
    select(
        account_hint_playlists(),
        |i: int| has_lower_title(ps, lowercase(account_hint_playlists()[i])),
        7,
    )
}

/// How many of the hint titles the playlists carry, in any case.
pub fn playlist_hint_score(playlists: &[PlaylistPayload]) -> (r: usize)
    ensures
        r == matched_hints(playlist_views(playlists@)).len(),
{
    let ghost ps = playlist_views(playlists@);
    let mut titles: Vec<String> = Vec::new();
    let mut i: usize = 0;
    while i < playlists.len()
        invariant
            i <= playlists@.len(),
            ps == playlist_views(playlists@),
            views(titles@).len() == i,
            forall|j: int| 0 <= j < i ==> views(titles@)[j] == lowercase(ps[j].title),
        decreases playlists@.len() - i,
    {
        let t = to_lowercase(playlists[i].title.as_str());
        proof {
            lemma_views_push(titles@, t);
        }
        titles.push(t);
        i = i + 1;
    }
    let hints: [&str; 7] = [
        "Liked Music",
        "2025 Recap",
        "Jordy playlist",
        "Dancing",
        "Liked songs (Spotify)",
        "ROCK",
        "SPACE KEES",
    ];
    let ghost keep = |i: int| has_lower_title(ps, lowercase(account_hint_playlists()[i]));
    let mut count: usize = 0;
    let mut k: usize = 0;
    while k < 7
        invariant
            k <= 7,
            count <= k,
            forall|j: int| 0 <= j < 7 ==> hints@[j]@ == account_hint_playlists()[j],
            ps == playlist_views(playlists@),
            views(titles@).len() == ps.len(),
            forall|j: int| 0 <= j < ps.len() ==> views(titles@)[j] == lowercase(ps[j].title),
            keep == (|i: int| has_lower_title(ps, lowercase(account_hint_playlists()[i]))),
            count == select(account_hint_playlists(), keep, k as int).len(),
        decreases 7 - k,
    {
        let h = to_lowercase(hints[k]);
        let found = contains_str(&titles, h.as_str());
        proof {
            if found {
                let j = choose|j: int| 0 <= j < views(titles@).len() && views(titles@)[j] == h@;
                assert(lowercase(ps[j].title) == h@);
            }
            if has_lower_title(ps, h@) {
                let j = choose|j: int| 0 <= j < ps.len() && lowercase(ps[j].title) == h@;
                assert(views(titles@)[j] == h@);
            }
            assert(found == keep(k as int));
        }
        if found {
            count = count + 1;
        }
        k = k + 1;
    }
    count
}

/// The score of an account that let the library be read: one, plus one for each playlist,
/// plus a hundred for each hint title among them.
pub open spec fn spec_auth_user_score(ps: Seq<Playlist>) -> nat {
    1 + ps.len() + 100 * matched_hints(ps).len()
}

/// The score of an account whose library shows `playlists`.
pub fn auth_user_score(playlists: &[PlaylistPayload]) -> (r: usize)
    requires
        playlists@.len() + 701 <= usize::MAX,
    ensures
        r == spec_auth_user_score(playlist_views(playlists@)),
{
    let hints = playlist_hint_score(playlists);
    proof {
        assert(select(
            account_hint_playlists(),
            |i: int| has_lower_title(playlist_views(playlists@), lowercase(account_hint_playlists()[i])),
            7,
        ).len() <= 7) by {
            lemma_select_len(
                account_hint_playlists(),
                |i: int| has_lower_title(playlist_views(playlists@), lowercase(account_hint_playlists()[i])),
                7,
            );
        }
    }
    1 + playlists.len() + hints * 100
}

proof fn lemma_select_len<A>(s: Seq<A>, keep: spec_fn(int) -> bool, n: int)
    requires
        0 <= n,
    ensures
        select(s, keep, n).len() <= n,
    decreases n,
{
    if n > 0 {
        lemma_select_len(s, keep, n - 1);
    }
}

/// The candidate with the highest score, the earliest of those that share it.
pub open spec fn best_candidate(scores: Seq<(u8, usize)>, k: int) -> bool {
    &&& 0 <= k < scores.len()
    &&& forall|j: int| 0 <= j < scores.len() ==> scores[j].1 <= scores[k].1
    &&& forall|j: int| 0 <= j < k ==> scores[j].1 < scores[k].1
}

/// The account, of those that let the library be read, with the highest score (the first
/// of the best where several share it); `None` where there is none.
pub fn best_auth_user(scores: &Vec<(u8, usize)>) -> (r: Option<u8>)
    ensures
        r is None <==> scores@.len() == 0,
        r matches Some(u) ==> exists|k: int| best_candidate(scores@, k) && scores@[k].0 == u,
{
    if scores.len() == 0 {
        return None;
    }
    let mut best: usize = 0;
    let mut i: usize = 1;
    while i < scores.len()
        invariant
            1 <= i <= scores@.len(),
            best < i,
            forall|j: int| 0 <= j < i ==> scores@[j].1 <= scores@[best as int].1,
            forall|j: int| 0 <= j < best ==> scores@[j].1 < scores@[best as int].1,
        decreases scores@.len() - i,
    {
        if scores[i].1 > scores[best].1 {
            best = i;
        }
        i = i + 1;
    }
    assert(best_candidate(scores@, best as int));
    Some(scores[best].0)
}

/// The user id that a session asks for: the requested one where it is not blank, else the
/// one saved before, checked.
pub open spec fn spec_requested_user_id(requested: Seq<char>, existing: Seq<char>) -> Result<Seq<char>, Seq<char>> {
    if trim(requested).len() == 0 {
        spec_validate_user_id(existing)
    } else {
        spec_validate_user_id(requested)
    }
}

/// The user id that a session asks for.  Where it is empty, the app reads the ids from the
/// account page.
pub fn requested_user_id(requested: &str, existing: &str) -> (r: Result<String, String>)
    ensures
        match r {
            Ok(u) => spec_requested_user_id(requested@, existing@) == Ok::<Seq<char>, Seq<char>>(u@),
            Err(e) => spec_requested_user_id(requested@, existing@) == Err::<Seq<char>, Seq<char>>(e@),
        },
{
    let t = trimmed(requested);
    if t.as_str().unicode_len() == 0 {
        validate_user_id(existing)
    } else {
        validate_user_id(requested)
    }
}

/// The cookies of a new session: the normalized new ones, else those saved before; an
/// error where both are empty.
pub fn session_cookies(normalized: String, existing: String) -> (r: Result<String, String>)
    ensures
        match r {
            Ok(c) => c@.len() > 0 && c@ == if normalized@.len() > 0 { normalized@ } else { existing@ },
            Err(e) => normalized@.len() == 0 && existing@.len() == 0
                && e@ == "Paste a Cookie header or cookies.txt export"@,
        },
{
    let cookies = if normalized.as_str().unicode_len() > 0 { normalized } else { existing };
    if cookies.as_str().unicode_len() == 0 {
        return Err("Paste a Cookie header or cookies.txt export".to_owned());
    }
    Ok(cookies)
}

/// The refusal of a session whose user id no account accepts.
pub const USER_ID_NOT_ACCEPTED: &'static str = "YouTube Music did not accept that User ID for these cookies. Check that you are signed into the same Gmail account and use the numeric Brand Account ID from the /b/<id>/ URL.";

/// The account number of a new session and whether its library could be read: an error
/// where a user id was given and no account accepted it; account 0 where none was found.
pub fn session_auth_user(user_id: &str, detected: Option<u8>) -> (r: Result<(u8, bool), String>)
    ensures
        match r {
            Ok((n, authenticated)) => !(user_id@.len() > 0 && detected is None)
                && authenticated == (detected is Some)
                && n == match detected {
                    Some(d) => d,
                    None => 0u8,
                },
            Err(e) => user_id@.len() > 0 && detected is None && e@ == USER_ID_NOT_ACCEPTED@,
        },
{
    match detected {
        Some(d) => Ok((d, true)),
        None => {
            if user_id.unicode_len() > 0 {
                Err(USER_ID_NOT_ACCEPTED.to_owned())
            } else {
                Ok((0, false))
            }
        },
    }
}

/// The arguments that make yt-dlp write the cookies of `browser` to `cookie_path`.
pub open spec fn cookie_import_args_spec(browser: Seq<char>, cookie_path: Seq<char>) -> Seq<Seq<char>> {
    seq![
        "--cookies-from-browser"@,
        browser,
        "--cookies"@,
        cookie_path,
        "--skip-download"@,
        "--simulate"@,
        "--no-warnings"@,
        "--quiet"@,
        "--no-playlist"@,
        MUSIC_COOKIE_IMPORT_PROBE_URL@,
    ]
}

/// The arguments that make yt-dlp write the cookies of `browser` to `cookie_path`.
pub fn cookie_import_args(browser: &str, cookie_path: &str) -> (r: Vec<String>)
    ensures
        views(r@) == cookie_import_args_spec(browser@, cookie_path@),
{
    let parts: [&str; 10] = [
        "--cookies-from-browser",
        browser,
        "--cookies",
        cookie_path,
        "--skip-download",
        "--simulate",
        "--no-warnings",
        "--quiet",
        "--no-playlist",
        MUSIC_COOKIE_IMPORT_PROBE_URL,
    ];
    let mut r: Vec<String> = Vec::new();
    let mut i: usize = 0;
    while i < 10
        invariant
            i <= 10,
            views(r@) == key_views(parts@.take(i as int)),
        decreases 10 - i,
    {
        let s = parts[i].to_owned();
        proof {
            lemma_views_push(r@, s);
        }
        r.push(s);
        i = i + 1;
        assert(key_views(parts@.take(i as int)) =~= key_views(parts@.take(i - 1)).push(parts@[i - 1]@));
    }
    assert(key_views(parts@.take(10)) =~= cookie_import_args_spec(browser@, cookie_path@));
    r
}

/// What importing the cookies of `browser` gave: the cookies that yt-dlp wrote, normalized,
/// where there are any; else an error that says whether yt-dlp ran and what it reported.
pub open spec fn spec_browser_import(browser: Seq<char>, cookies: Seq<char>, succeeded: bool, stderr: Seq<char>) -> Result<Seq<char>, Seq<char>> {
    if cookies.len() > 0 {
        Ok(cookies)
    } else if succeeded {
        Err("No YouTube cookies found in "@ + browser)
    } else if trim(stderr).len() > 0 {
        Err(trim(stderr))
    } else {
        Err("Could not import cookies from "@ + browser)
    }
}

/// The outcome of importing the cookies of `browser`.
pub fn browser_import_result(browser: &str, cookies: String, succeeded: bool, stderr: &str) -> (r: Result<String, String>)
    ensures
        match r {
            Ok(c) => spec_browser_import(browser@, cookies@, succeeded, stderr@) == Ok::<Seq<char>, Seq<char>>(c@),
            Err(e) => spec_browser_import(browser@, cookies@, succeeded, stderr@) == Err::<Seq<char>, Seq<char>>(e@),
        },
{
    if cookies.as_str().unicode_len() > 0 {
        return Ok(cookies);
    }
    if succeeded {
        let mut e = "No YouTube cookies found in ".to_owned();
        push_str(&mut e, browser);
        return Err(e);
    }
    let t = trimmed(stderr);
    if t.as_str().unicode_len() > 0 {
        Err(t)
    } else {
        let mut e = "Could not import cookies from ".to_owned();
        push_str(&mut e, browser);
        Err(e)
    }
}

/// The browsers to import from: every supported browser for `auto` (in any case) or a blank
/// choice, else the one chosen, trimmed.
pub open spec fn spec_import_sources(browser: Seq<char>) -> Seq<Seq<char>> {
    let t = trim(browser);
    if eq_ignore_ascii_case(t, "auto"@) || t.len() == 0 {
        browser_names()
    } else {
        seq![t]
    }
}

/// The browsers to import the cookies from.
pub fn import_sources(browser: &str) -> (r: Vec<String>)
    ensures
        views(r@) == spec_import_sources(browser@),
{
    let v = chars_of(browser);
    let (a, b) = trim_window(&v, 0, v.len(), &CharClass::Whitespace);
    assert(v@.subrange(0, v@.len() as int) =~= v@);
    let auto = chars_of("auto");
    if a == b || window_eq_ignore_ascii_case(&v, a, b, &auto) {
        let all = browser_cookie_sources();
        let mut r: Vec<String> = Vec::new();
        let mut i: usize = 0;
        while i < 7
            invariant
                i <= 7,
                all@.map_values(|s: &str| s@) == browser_names(),
                views(r@) == browser_names().take(i as int),
            decreases 7 - i,
        {
            let s = all[i].to_owned();
            assert(browser_names()[i as int] == all@[i as int]@);
            proof {
                lemma_views_push(r@, s);
            }
            r.push(s);
            i = i + 1;
            assert(browser_names().take(i as int) =~= browser_names().take(i - 1).push(s@));
        }
        assert(browser_names().take(7) =~= browser_names());
        r
    } else {
        let t = string_of(&v, a, b);
        let mut r: Vec<String> = Vec::new();
        proof {
            lemma_views_push(r@, t);
        }
        r.push(t);
        r
    }
}

/// The refusal where cookies were imported but no account accepted the given user id.
pub const IMPORTED_USER_ID_REJECTED: &'static str = "Imported cookies were found, but YouTube Music did not accept that User ID. Check that you are signed into the same Gmail account and use the numeric Brand Account ID from the /b/<id>/ URL.";

/// The session saved where no browser's cookies were accepted: the first cookies found and
/// the user id read for them, unless there were none (the errors, joined) or a user id was
/// asked for.
pub open spec fn spec_unaccepted_import(first: Option<(Seq<char>, Seq<char>)>, user_id: Seq<char>, errors: Seq<Seq<char>>) -> Result<(Seq<char>, Seq<char>), Seq<char>> {
    match first {
        None => Err(join(errors, "; "@)),
        Some((c, u)) => if user_id.len() > 0 {
            Err(IMPORTED_USER_ID_REJECTED@)
        } else {
            Ok((c, u))
        },
    }
}

/// The cookies and user id to save where no browser's cookies were accepted.
pub fn unaccepted_import(first: Option<(String, String)>, user_id: &str, errors: &Vec<String>) -> (r: Result<(String, String), String>)
    ensures
        match r {
            Ok((c, u)) => spec_unaccepted_import(
                match first {
                    Some((a, b)) => Some((a@, b@)),
                    None => None,
                },
                user_id@,
                views(errors@),
            ) == Ok::<(Seq<char>, Seq<char>), Seq<char>>((c@, u@)),
            Err(e) => spec_unaccepted_import(
                match first {
                    Some((a, b)) => Some((a@, b@)),
                    None => None,
                },
                user_id@,
                views(errors@),
            ) == Err::<(Seq<char>, Seq<char>), Seq<char>>(e@),
        },
{
    match first {
        None => {
            let j = join_strings(errors, "; ");
            assert(errors@.map_values(|x: String| x@) =~= views(errors@));
            Err(j)
        },
        Some((c, u)) => {
            if user_id.unicode_len() > 0 {
                Err(IMPORTED_USER_ID_REJECTED.to_owned())
            } else {
                Ok((c, u))
            }
        },
    }
}

/// The channel id of a session made in the login window: the saved one where none is given,
/// else the given one, checked.
pub fn app_login_channel_id(channel_id: &str, existing: String) -> (r: Result<String, String>)
    ensures
        match r {
            Ok(c) => if trim(channel_id@).len() == 0 {
                c@ == existing@
            } else {
                spec_validate_channel_id(channel_id@) == Ok::<Seq<char>, Seq<char>>(c@)
            },
            Err(e) => trim(channel_id@).len() > 0
                && spec_validate_channel_id(channel_id@) == Err::<Seq<char>, Seq<char>>(e@),
        },
{
    let t = trimmed(channel_id);
    if t.as_str().unicode_len() == 0 {
        Ok(existing)
    } else {
        validate_channel_id(channel_id)
    }
}

/// Of the cookies read from two Firefox profiles, the longer; the earlier where they are as
/// long.
pub fn longer_cookies(best: String, candidate: String) -> (r: String)
    ensures
        r@ == if byte_len(candidate@) > byte_len(best@) { candidate@ } else { best@ },
{
    if candidate.as_str().as_bytes().len() > best.as_str().as_bytes().len() {
        candidate
    } else {
        best
    }
}

/// The hint score counts each hint title at most once: it is at most the seven titles.
pub proof fn lemma_hint_score_bounded(ps: Seq<Playlist>)
    ensures
        matched_hints(ps).len() <= 7,
{
    lemma_select_len(
        account_hint_playlists(),
        |i: int| has_lower_title(ps, lowercase(account_hint_playlists()[i])),
        7,
    );
}

/// What is reported for a browser whose cookies could not be used: the error of the import,
/// or, where the cookies were read, that YouTube Music rejected them.
pub fn import_source_error(source: &str, error: Option<&str>) -> (r: String)
    ensures
        r@ == source@ + match error {
            Some(e) => ": "@ + e@,
            None => ": cookies rejected by YouTube Music"@,
        },
{
    let mut r = source.to_owned();
    match error {
        Some(e) => {
            push_str(&mut r, ": ");
            push_str(&mut r, e);
        },
        None => {
            push_str(&mut r, ": cookies rejected by YouTube Music");
        },
    }
    r
}

/// Where an import from the browsers stands: the first cookies read, with the user id to use
/// with them, and what was reported of each browser whose cookies could not be used.
pub struct ImportProgress {
    pub first: Option<(String, String)>,
    pub errors: Vec<String>,
}

/// What the import from one browser gave: an error, or cookies read, with the user id to
/// use with them and the account index under which YouTube Music accepted them, if it did.
pub enum ImportOutcome {
    Failed(String),
    Read { cookies: String, user_id: String, auth_user: Option<u8> },
}

/// What comes after the import from one browser: save its cookies as the session, or go on
/// with the next browser.
pub enum ImportStep {
    Save { cookies: String, user_id: String, auth_user: u8 },
    Next,
}

/// The view of an optional pair of strings.
pub open spec fn pair_view(p: Option<(String, String)>) -> Option<(Seq<char>, Seq<char>)> {
    match p {
        Some((a, b)) => Some((a@, b@)),
        None => None,
    }
}

impl ImportProgress {
    /// No browser tried yet.
    pub fn new() -> (r: Self)
        ensures
            r.first is None,
            r.errors@.len() == 0,
    {
        ImportProgress { first: None, errors: Vec::new() }
    }
}

/// The import from `source` gave `outcome`: accepted cookies are saved, under the account
/// index that YouTube Music accepted them with; cookies that were
/// read but rejected are kept where they are the first read, and reported; a failure is
/// reported.
pub fn import_step(progress: &mut ImportProgress, source: &str, outcome: ImportOutcome) -> (r: ImportStep)
    ensures
        match outcome {
            ImportOutcome::Read { cookies, user_id, auth_user } => if let Some(a) = auth_user {
                &&& r matches ImportStep::Save { cookies: c, user_id: u, auth_user: b }
                    && c@ == cookies@ && u@ == user_id@ && b == a
                &&& pair_view(final(progress).first) == pair_view(old(progress).first)
                &&& views(final(progress).errors@) == views(old(progress).errors@)
            } else {
                &&& r is Next
                &&& pair_view(final(progress).first) == match old(progress).first {
                    Some(_) => pair_view(old(progress).first),
                    None => Some((cookies@, user_id@)),
                }
                &&& views(final(progress).errors@) == views(old(progress).errors@).push(
                    source@ + ": cookies rejected by YouTube Music"@,
                )
            },
            ImportOutcome::Failed(e) => {
                &&& r is Next
                &&& pair_view(final(progress).first) == pair_view(old(progress).first)
                &&& views(final(progress).errors@) == views(old(progress).errors@).push(source@ + ": "@ + e@)
            },
        },
{
    match outcome {
        ImportOutcome::Failed(e) => {
            let m = import_source_error(source, Some(e.as_str()));
            proof {
                lemma_views_push(progress.errors@, m);
                assert(m@ =~= source@ + ": "@ + e@);
            }
            progress.errors.push(m);
            ImportStep::Next
        },
        ImportOutcome::Read { cookies, user_id, auth_user } => {
            if let Some(a) = auth_user {
                ImportStep::Save { cookies, user_id, auth_user: a }
            } else {
                if progress.first.is_none() {
                    progress.first = Some((cookies, user_id));
                }
                let m = import_source_error(source, None);
                proof {
                    lemma_views_push(progress.errors@, m);
                }
                progress.errors.push(m);
                ImportStep::Next
            }
        },
    }
}

} // verus!
