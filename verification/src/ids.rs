//! Identifiers that reach YouTube Music, `yt-dlp` or a URL: their validation
//! and normalization.
use vstd::prelude::*;
use crate::cookies::{lemma_views_insert, lemma_views_push, views};
use crate::text::{
    all_in, find_in, replace, replace_window, window_eq, all_match, chars_of, find, lead, lead_count, rsplit_once, rfind_in, starts_with,
    string_of, strip_prefix, trim, trim_by, trim_window, vec_eq_str, window_starts_with,
    CharClass, lemma_rfind, rfind,
};

verus! {

pub const INVALID_PLAYLIST_ID: &'static str = "Invalid playlist id";

pub const PLAYLIST_TITLE_LENGTH: &'static str = "Playlist name must be 1-80 characters";

pub const USER_ID_FORMAT: &'static str = "YouTube Music rejected this User ID format. For multiple YouTube accounts under one Gmail, switch to the music account, open https://www.youtube.com/account_advanced to confirm the account, then use the numeric Brand Account ID from the /b/<id>/ URL at https://myaccount.google.com/brandaccounts.";

pub const CHANNEL_ID_FORMAT: &'static str = "Use the Channel ID from https://www.youtube.com/account_advanced. It usually starts with UC. The shorter User ID is not accepted for public playlist lookup.";

pub const UNSUPPORTED_BROWSER: &'static str = "Choose a supported browser cookie source";

/// Page that a browser cookie import asks `yt-dlp` to probe.
pub const MUSIC_COOKIE_IMPORT_PROBE_URL: &'static str = "https://music.youtube.com/watch?v=jNQXAC9IVRw";

/// At least six characters, each an ASCII letter or digit, `_` or `-`.
pub open spec fn spec_valid_video_id(id: Seq<char>) -> bool {
    id.len() >= 6 && all_in(id, CharClass::IdChar)
}

/// Whether `video_id` is a video id that is safe to pass on.
pub fn valid_video_id(video_id: &str) -> (r: bool)
    ensures
        r == spec_valid_video_id(video_id@),
{
    let v = chars_of(video_id);
    assert(v@.subrange(0, v@.len() as int) =~= v@);
    v.len() >= 6 && all_match(&v, 0, v.len(), &CharClass::IdChar)
}

/// The trimmed playlist id without a leading `VL`.
pub open spec fn playlist_id_body(id: Seq<char>) -> Seq<char> {
    match strip_prefix(trim(id), "VL"@) {
        Some(rest) => rest,
        None => trim(id),
    }
}

pub open spec fn spec_normalize_playlist_id(id: Seq<char>) -> Result<Seq<char>, Seq<char>> {
    let body = playlist_id_body(id);
    if body.len() >= 2 && all_in(body, CharClass::IdChar) {
        Ok(body)
    } else {
        Err(INVALID_PLAYLIST_ID@)
    }
}

/// The playlist id without a leading `VL`, where it is at least two
/// characters, each an ASCII letter or digit, `_` or `-`.
pub fn normalize_playlist_id(playlist_id: &str) -> (r: Result<String, String>)
    ensures
        r matches Ok(s) ==> spec_normalize_playlist_id(playlist_id@) == Ok::<Seq<char>, Seq<char>>(s@),
        r matches Err(e) ==> spec_normalize_playlist_id(playlist_id@) == Err::<Seq<char>, Seq<char>>(e@),
{
    proof {
        reveal_strlit("VL");
    }
    let v = chars_of(playlist_id);
    assert(v@.subrange(0, v@.len() as int) =~= v@);
    let (a, b) = trim_window(&v, 0, v.len(), &CharClass::Whitespace);
    let start = if window_starts_with(&v, a, b, "VL") {
        assert(v@.subrange(a as int, b as int).skip(2) =~= v@.subrange(a + 2, b as int));
        a + 2
    } else {
        a
    };
    if b - start >= 2 && all_match(&v, start, b, &CharClass::IdChar) {
        Ok(string_of(&v, start, b))
    } else {
        Err(INVALID_PLAYLIST_ID.to_string())
    }
}

/// Whether mix parameters hold only ASCII letters and digits, `_`, `-` and `%`.
pub fn valid_playlist_params(params: &str) -> (r: bool)
    ensures
        r == all_in(params@, CharClass::ParamChar),
{
    let v = chars_of(params);
    assert(v@.subrange(0, v@.len() as int) =~= v@);
    all_match(&v, 0, v.len(), &CharClass::ParamChar)
}

pub open spec fn spec_validate_playlist_title(title: Seq<char>) -> Result<Seq<char>, Seq<char>> {
    let t = trim(title);
    if t.len() == 0 || t.len() > 80 {
        Err(PLAYLIST_TITLE_LENGTH@)
    } else {
        Ok(t)
    }
}

/// The trimmed title of a new playlist, where it is 1 to 80 characters long.
pub fn validate_playlist_title(title: &str) -> (r: Result<&str, String>)
    ensures
        r matches Ok(s) ==> spec_validate_playlist_title(title@) == Ok::<Seq<char>, Seq<char>>(s@),
        r matches Err(e) ==> spec_validate_playlist_title(title@) == Err::<Seq<char>, Seq<char>>(e@),
{
    let v = chars_of(title);
    assert(v@.subrange(0, v@.len() as int) =~= v@);
    let (a, b) = trim_window(&v, 0, v.len(), &CharClass::Whitespace);
    if a == b || b - a > 80 {
        return Err(PLAYLIST_TITLE_LENGTH.to_string());
    }
    Ok(title.substring_char(a, b))
}

/// Trimmed of whitespace, then of `/` at both ends.
pub open spec fn spec_normalize_user_id(id: Seq<char>) -> Seq<char> {
    trim_by(trim(id), CharClass::Is('/'))
}

/// The user id trimmed of whitespace and then of `/` at both ends.
pub fn normalize_user_id(user_id: &str) -> (r: String)
    ensures
        r@ == spec_normalize_user_id(user_id@),
{
    let v = chars_of(user_id);
    assert(v@.subrange(0, v@.len() as int) =~= v@);
    let (a, b) = trim_window(&v, 0, v.len(), &CharClass::Whitespace);
    let (c, d) = trim_window(&v, a, b, &CharClass::Is('/'));
    string_of(&v, c, d)
}

/// A Brand Account id: 20 to 22 ASCII digits.
pub open spec fn is_brand_account_id(id: Seq<char>) -> bool {
    all_in(id, CharClass::Digit) && 20 <= id.len() <= 22
}

pub open spec fn spec_validate_user_id(id: Seq<char>) -> Result<Seq<char>, Seq<char>> {
    let u = spec_normalize_user_id(id);
    if u.len() == 0 || is_brand_account_id(u) {
        Ok(u)
    } else {
        Err(USER_ID_FORMAT@)
    }
}

/// The normalized user id, where it is empty or a Brand Account id.
pub fn validate_user_id(user_id: &str) -> (r: Result<String, String>)
    ensures
        r matches Ok(s) ==> spec_validate_user_id(user_id@) == Ok::<Seq<char>, Seq<char>>(s@),
        r matches Err(e) ==> spec_validate_user_id(user_id@) == Err::<Seq<char>, Seq<char>>(e@),
{
    let u = normalize_user_id(user_id);
    let v = chars_of(u.as_str());
    assert(v@.subrange(0, v@.len() as int) =~= v@);
    if v.len() == 0 {
        return Ok(u);
    }
    if all_match(&v, 0, v.len(), &CharClass::Digit) && 20 <= v.len() && v.len() <= 22 {
        return Ok(u);
    }
    Err(USER_ID_FORMAT.to_string())
}

/// The channel id of a bare id, a `/channel/` URL or an `MPLA` browse id.
pub open spec fn spec_normalize_channel_id(id: Seq<char>) -> Seq<char> {
    let value = trim_by(trim(id), CharClass::Is('/'));
    let value = match rsplit_once(value, "/channel/"@) {
        Some((_, tail)) => tail,
        None => value,
    };
    let value = match strip_prefix(value, "MPLA"@) {
        Some(rest) => rest,
        None => value,
    };
    trim_by(value, CharClass::Is('/'))
}

/// The channel id in a bare id, a `/channel/` URL or an `MPLA` browse id.
pub fn normalize_channel_id(channel_id: &str) -> (r: String)
    ensures
        r@ == spec_normalize_channel_id(channel_id@),
{
    proof {
        reveal_strlit("/channel/");
        reveal_strlit("MPLA");
    }
    let v = chars_of(channel_id);
    assert(v@.subrange(0, v@.len() as int) =~= v@);
    let (a, b) = trim_window(&v, 0, v.len(), &CharClass::Whitespace);
    let (c, d) = trim_window(&v, a, b, &CharClass::Is('/'));
    let marker = chars_of("/channel/");
    let ghost value = v@.subrange(c as int, d as int);
    let c2 = match rfind_in(&v, c, d, &marker) {
        Some(i) => {
            proof {
                lemma_rfind(value, marker@);
                assert(value.skip(i - c + 9) =~= v@.subrange(i + 9, d as int));
            }
            i + 9
        },
        None => c,
    };
    let ghost value2 = v@.subrange(c2 as int, d as int);
    let c3 = if window_starts_with(&v, c2, d, "MPLA") {
        assert(value2.skip(4) =~= v@.subrange(c2 + 4, d as int));
        c2 + 4
    } else {
        c2
    };
    let (e, f) = trim_window(&v, c3, d, &CharClass::Is('/'));
    string_of(&v, e, f)
}

/// A channel id: `UC` and at least 18 more ASCII letters, digits, `_` or `-`.
pub open spec fn is_channel_id(id: Seq<char>) -> bool {
    starts_with(id, "UC"@) && id.len() >= 20 && all_in(id, CharClass::IdChar)
}

pub open spec fn spec_validate_channel_id(id: Seq<char>) -> Result<Seq<char>, Seq<char>> {
    let c = spec_normalize_channel_id(id);
    if c.len() == 0 || is_channel_id(c) {
        Ok(c)
    } else {
        Err(CHANNEL_ID_FORMAT@)
    }
}

/// The normalized channel id, where it is empty or a channel id.
pub fn validate_channel_id(channel_id: &str) -> (r: Result<String, String>)
    ensures
        r matches Ok(s) ==> spec_validate_channel_id(channel_id@) == Ok::<Seq<char>, Seq<char>>(s@),
        r matches Err(e) ==> spec_validate_channel_id(channel_id@) == Err::<Seq<char>, Seq<char>>(e@),
{
    let c = normalize_channel_id(channel_id);
    let v = chars_of(c.as_str());
    assert(v@.subrange(0, v@.len() as int) =~= v@);
    if v.len() == 0 {
        return Ok(c);
    }
    if window_starts_with(&v, 0, v.len(), "UC") && v.len() >= 20 && all_match(
        &v,
        0,
        v.len(),
        &CharClass::IdChar,
    ) {
        return Ok(c);
    }
    Err(CHANNEL_ID_FORMAT.to_string())
}

/// `LM`, `SE`, or an id that starts with `PL`, `RD` or `OL`.
pub open spec fn spec_is_supported_playlist_id(id: Seq<char>) -> bool {
    id == "LM"@ || id == "SE"@ || starts_with(id, "PL"@) || starts_with(id, "RD"@) || starts_with(
        id,
        "OL"@,
    )
}

/// Whether a playlist id is of a kind that the library can open.
pub fn is_supported_playlist_id(id: &str) -> (r: bool)
    ensures
        r == spec_is_supported_playlist_id(id@),
{
    let v = chars_of(id);
    assert(v@.subrange(0, v@.len() as int) =~= v@);
    vec_eq_str(&v, 0, v.len(), "LM") || vec_eq_str(&v, 0, v.len(), "SE") || window_starts_with(
        &v,
        0,
        v.len(),
        "PL",
    ) || window_starts_with(&v, 0, v.len(), "RD") || window_starts_with(&v, 0, v.len(), "OL")
}

pub open spec fn browser_names() -> Seq<Seq<char>> {
    seq!["firefox"@, "chrome"@, "chromium"@, "brave"@, "edge"@, "opera"@, "vivaldi"@]
}

/// The browsers whose cookies can be imported.
pub fn browser_cookie_sources() -> (r: [&'static str; 7])
    ensures
        r@.map_values(|s: &str| s@) == browser_names(),
{
    let r = ["firefox", "chrome", "chromium", "brave", "edge", "opera", "vivaldi"];
    assert(r@.map_values(|s: &str| s@) =~= browser_names());
    r
}

/// `Ok` where `browser` is one whose cookies can be imported.
pub fn validate_browser_source(browser: &str) -> (r: Result<(), String>)
    ensures
        r is Ok <==> browser_names().contains(browser@),
        r matches Err(e) ==> e@ == UNSUPPORTED_BROWSER@,
{
    let sources = browser_cookie_sources();
    let v = chars_of(browser);
    assert(v@.subrange(0, v@.len() as int) =~= v@);
    let ghost names = browser_names();
    let mut i: usize = 0;
    while i < 7
        invariant
            0 <= i <= 7,
            v@ == browser@,
            names == browser_names(),
            sources@.map_values(|s: &str| s@) == names,
            forall|j: int| 0 <= j < i ==> names[j] != browser@,
        decreases 7 - i,
    {
        assert(sources@.map_values(|s: &str| s@)[i as int] == sources@[i as int]@);
        assert(v@.subrange(0, v@.len() as int) =~= v@);
        if vec_eq_str(&v, 0, v.len(), sources[i]) {
            assert(names[i as int] == browser@);
            return Ok(());
        }
        i = i + 1;
    }
    Err(UNSUPPORTED_BROWSER.to_string())
}


/// `validate_user_id` accepts `id` as a non-empty user id.
pub open spec fn accepted_user_id(id: Seq<char>) -> bool {
    spec_validate_user_id(id) matches Ok(v) && v.len() > 0
}

/// The accepted user ids that directly follow each occurrence of `marker`
/// in `s`, each the longest run of ASCII letters, digits, `_` and `-` there.
pub open spec fn ids_after_marker(s: Seq<char>, marker: Seq<char>) -> Seq<Seq<char>>
    decreases s.len(),
{
    if marker.len() == 0 {
        Seq::empty()
    } else {
        match find(s, marker) {
            Some(i) => if 0 <= i && i + marker.len() <= s.len() {
                let rest = s.skip(i + marker.len());
                let id = rest.take(lead(rest, CharClass::IdChar) as int);
                (if accepted_user_id(id) {
                    seq![id]
                } else {
                    Seq::empty()
                }) + ids_after_marker(rest, marker)
            } else {
                Seq::empty()
            },
            None => Seq::empty(),
        }
    }
}

/// Appends to `out` the accepted user ids that follow each occurrence of `marker`.
pub fn collect_user_ids_after_marker(source: &str, marker: &str, out: &mut Vec<String>)
    requires
        marker@.len() > 0,
    ensures
        views(final(out)@) == views(old(out)@) + ids_after_marker(source@, marker@),
{
    let v = chars_of(source);
    let m = chars_of(marker);
    let mut offset: usize = 0;
    assert(v@.skip(0) =~= v@);
    loop
        invariant
            offset <= v.len(),
            v@ == source@,
            m@ == marker@,
            m@.len() > 0,
            views(old(out)@) + ids_after_marker(source@, marker@) == views(out@) + ids_after_marker(
                v@.skip(offset as int),
                m@,
            ),
        decreases v.len() - offset,
    {
        let ghost rest0 = v@.skip(offset as int);
        assert(v@.subrange(offset as int, v@.len() as int) =~= rest0);
        match find_in(&v, offset, v.len(), &m) {
            Some(i) => {
                let start = i + m.len();
                let n = lead_count(&v, start, v.len(), &CharClass::IdChar);
                let id = string_of(&v, start, start + n);
                proof {
                    let rest = rest0.skip(i - offset + m@.len());
                    assert(rest =~= v@.skip(start as int));
                    assert(v@.subrange(start as int, v@.len() as int) =~= rest);
                    assert(rest.take(n as int) =~= id@);
                }
                match validate_user_id(id.as_str()) {
                    Ok(u) => {
                        if u.as_str().unicode_len() > 0 {
                            proof {
                                lemma_views_push(out@, id);
                            }
                            out.push(id);
                        }
                    },
                    Err(_) => {},
                }
                offset = start;
            },
            None => {
                assert(views(out@) + Seq::<Seq<char>>::empty() =~= views(out@));
                return ;
            },
        }
    }
}

/// `a` comes before `b` in lexicographic order, comparing from index `k` on.
pub open spec fn lex_lt_from(a: Seq<char>, b: Seq<char>, k: int) -> bool
    decreases a.len() - k,
{
    if k < 0 || k >= a.len() {
        k >= 0 && k == a.len() && k < b.len()
    } else if k >= b.len() {
        false
    } else if a[k] < b[k] {
        true
    } else if a[k] == b[k] {
        lex_lt_from(a, b, k + 1)
    } else {
        false
    }
}

/// `a` comes before `b` in lexicographic order (that of `String`).
pub open spec fn lex_lt(a: Seq<char>, b: Seq<char>) -> bool {
    lex_lt_from(a, b, 0)
}

proof fn lemma_lex_trichotomy_from(a: Seq<char>, b: Seq<char>, k: int)
    requires
        0 <= k <= a.len(),
        k <= b.len(),
        a.take(k) == b.take(k),
    ensures
        lex_lt_from(a, b, k) || lex_lt_from(b, a, k) || a == b,
    decreases a.len() - k,
{
    if k < a.len() && k < b.len() && a[k] == b[k] {
        assert(a.take(k + 1) =~= a.take(k).push(a[k]));
        assert(b.take(k + 1) =~= b.take(k).push(b[k]));
        lemma_lex_trichotomy_from(a, b, k + 1);
    } else if k == a.len() && k == b.len() {
        assert(a =~= a.take(k));
        assert(b =~= b.take(k));
    }
}

/// Two different sequences are ordered one way or the other.
pub proof fn lemma_lex_trichotomy(a: Seq<char>, b: Seq<char>)
    ensures
        lex_lt(a, b) || lex_lt(b, a) || a == b,
{
    assert(a.take(0) =~= b.take(0));
    lemma_lex_trichotomy_from(a, b, 0);
}

proof fn lemma_lex_irreflexive_from(a: Seq<char>, k: int)
    requires
        0 <= k <= a.len(),
    ensures
        !lex_lt_from(a, a, k),
    decreases a.len() - k,
{
    if k < a.len() {
        lemma_lex_irreflexive_from(a, k + 1);
    }
}

pub fn lex_lt_exec(a: &Vec<char>, b: &Vec<char>) -> (r: bool)
    ensures
        r == lex_lt(a@, b@),
{
    let mut k: usize = 0;
    while k < a.len() && k < b.len() && a[k] == b[k]
        invariant
            k <= a.len(),
            k <= b.len(),
            lex_lt(a@, b@) == lex_lt_from(a@, b@, k as int),
        decreases a.len() - k,
    {
        k = k + 1;
    }
    if k == a.len() {
        k < b.len()
    } else if k == b.len() {
        false
    } else {
        a[k] < b[k]
    }
}

proof fn lemma_lex_asymmetric_from(a: Seq<char>, b: Seq<char>, k: int)
    requires
        0 <= k,
    ensures
        !(lex_lt_from(a, b, k) && lex_lt_from(b, a, k)),
    decreases a.len() - k,
{
    if k < a.len() && k < b.len() && a[k] == b[k] {
        lemma_lex_asymmetric_from(a, b, k + 1);
    }
}

/// Lexicographic order is asymmetric.
pub proof fn lemma_lex_asymmetric(a: Seq<char>, b: Seq<char>)
    ensures
        !(lex_lt(a, b) && lex_lt(b, a)),
{
    lemma_lex_asymmetric_from(a, b, 0);
}

proof fn lemma_lex_transitive_from(a: Seq<char>, b: Seq<char>, c: Seq<char>, k: int)
    requires
        0 <= k,
        lex_lt_from(a, b, k),
        lex_lt_from(b, c, k),
    ensures
        lex_lt_from(a, c, k),
    decreases a.len() - k,
{
    if k < a.len() && k < b.len() && k < c.len() && a[k] == b[k] && b[k] == c[k] {
        lemma_lex_transitive_from(a, b, c, k + 1);
    }
}

/// Lexicographic order is transitive.
pub proof fn lemma_lex_transitive(a: Seq<char>, b: Seq<char>, c: Seq<char>)
    requires
        lex_lt(a, b),
        lex_lt(b, c),
    ensures
        lex_lt(a, c),
{
    lemma_lex_transitive_from(a, b, c, 0);
}

/// Each element comes before the next one.
pub open spec fn strictly_ascending(s: Seq<Seq<char>>) -> bool {
    forall|i: int| 0 <= i < s.len() - 1 ==> lex_lt(#[trigger] s[i], s[i + 1])
}

/// Inserts `x` into the strictly ascending `sorted`, where it is not there yet.
pub fn insert_sorted(sorted: &mut Vec<String>, x: String)
    requires
        strictly_ascending(views(old(sorted)@)),
    ensures
        strictly_ascending(views(final(sorted)@)),
        views(final(sorted)@).to_set() == views(old(sorted)@).to_set().insert(x@),
{
    let xv = chars_of(x.as_str());
    let ghost s0 = views(sorted@);
    let mut p: usize = 0;
    while p < sorted.len()
        invariant
            0 <= p <= sorted.len(),
            sorted@ == old(sorted)@,
            s0 == views(sorted@),
            xv@ == x@,
            forall|j: int| 0 <= j < p ==> lex_lt(#[trigger] s0[j], x@),
        ensures
            0 <= p <= sorted.len(),
            sorted@ == old(sorted)@,
            forall|j: int| 0 <= j < p ==> lex_lt(#[trigger] s0[j], x@),
            p < sorted.len() ==> !lex_lt(s0[p as int], x@),
        decreases sorted.len() - p,
    {
        let e = chars_of(sorted[p].as_str());
        assert(s0[p as int] == sorted@[p as int]@);
        if !lex_lt_exec(&e, &xv) {
            break;
        }
        p = p + 1;
    }
    if p < sorted.len() {
        let e = chars_of(sorted[p].as_str());
        assert(s0[p as int] == e@);
        assert(e@.subrange(0, e@.len() as int) =~= e@);
        if window_eq(&e, 0, e.len(), &xv) {
            assert(s0.to_set().insert(x@) =~= s0.to_set());
            return ;
        }
        proof {
            lemma_lex_trichotomy(s0[p as int], x@);
        }
    }
    proof {
        lemma_views_insert(sorted@, p as int, x);
    }
    sorted.insert(p, x);
    proof {
        let s1 = views(sorted@);
        assert(s1 == s0.insert(p as int, x@));
        assert forall|i: int| 0 <= i < s1.len() - 1 implies lex_lt(#[trigger] s1[i], s1[i + 1]) by {
            if i < p - 1 {
                assert(s1[i] == s0[i] && s1[i + 1] == s0[i + 1]);
            } else if i == p - 1 {
            } else if i == p {
            } else {
                assert(s1[i] == s0[i - 1] && s1[i + 1] == s0[i]);
            }
        }
        assert forall|y: Seq<char>| s1.to_set().contains(y) <==> s0.to_set().insert(x@).contains(y) by {
            if s1.contains(y) {
                let k = choose|k: int| 0 <= k < s1.len() && s1[k] == y;
                if k < p {
                    assert(s0[k] == y);
                } else if k > p {
                    assert(s0[k - 1] == y);
                }
            }
            if s0.contains(y) {
                let k = choose|k: int| 0 <= k < s0.len() && s0[k] == y;
                if k < p {
                    assert(s1[k] == y);
                } else {
                    assert(s1[k + 1] == y);
                }
            }
            if y == x@ {
                assert(s1[p as int] == y);
            }
        }
        assert(s1.to_set() =~= s0.to_set().insert(x@));
    }
}

/// The Brand Account ids in the text of the account page: those after `/b/`,
/// then those after `/channel/`, with escaped slashes read as `/`.
pub open spec fn account_page_ids(raw: Seq<char>) -> Seq<Seq<char>> {
    let n = account_page_text(raw);
    ids_after_marker(n, "/b/"@) + ids_after_marker(n, "/channel/"@)
}

/// The account page with `\/`, `\u002F`, `\u002f`, `%2F` and `%2f` read as `/`.
pub open spec fn account_page_text(raw: Seq<char>) -> Seq<char> {
    replace(
        replace(
            replace(replace(replace(raw, "\\/"@, "/"@), "\\u002F"@, "/"@), "\\u002f"@, "/"@),
            "%2F"@,
            "/"@,
        ),
        "%2f"@,
        "/"@,
    )
}

/// The distinct user ids on the YouTube account page, in ascending order.
pub fn extract_user_ids_from_account_page(raw: &str) -> (r: Vec<String>)
    ensures
        strictly_ascending(views(r@)),
        views(r@).to_set() == account_page_ids(raw@).to_set(),
{
    proof {
        reveal_strlit("\\/");
        reveal_strlit("\\u002F");
        reveal_strlit("\\u002f");
        reveal_strlit("%2F");
        reveal_strlit("%2f");
        reveal_strlit("/b/");
        reveal_strlit("/channel/");
    }
    let v = chars_of(raw);
    let slash = chars_of("/");
    let n1 = replace_window(&v, 0, v.len(), &chars_of("\\/"), &slash);
    let n2 = replace_window(&n1, 0, n1.len(), &chars_of("\\u002F"), &slash);
    let n3 = replace_window(&n2, 0, n2.len(), &chars_of("\\u002f"), &slash);
    let n4 = replace_window(&n3, 0, n3.len(), &chars_of("%2F"), &slash);
    let n5 = replace_window(&n4, 0, n4.len(), &chars_of("%2f"), &slash);
    proof {
        assert(v@.subrange(0, v@.len() as int) =~= v@);
        assert(n1@.subrange(0, n1@.len() as int) =~= n1@);
        assert(n2@.subrange(0, n2@.len() as int) =~= n2@);
        assert(n3@.subrange(0, n3@.len() as int) =~= n3@);
        assert(n4@.subrange(0, n4@.len() as int) =~= n4@);
    }
    let normalized = string_of(&n5, 0, n5.len());
    assert(n5@.subrange(0, n5@.len() as int) =~= n5@);
    let mut ids: Vec<String> = Vec::new();
    collect_user_ids_after_marker(normalized.as_str(), "/b/", &mut ids);
    collect_user_ids_after_marker(normalized.as_str(), "/channel/", &mut ids);
    let ghost all = views(ids@);
    assert(all =~= account_page_ids(raw@));
    let mut sorted: Vec<String> = Vec::new();
    let mut i: usize = 0;
    while i < ids.len()
        invariant
            0 <= i <= ids.len(),
            all == views(ids@),
            strictly_ascending(views(sorted@)),
            views(sorted@).to_set() == all.take(i as int).to_set(),
        decreases ids.len() - i,
    {
        let x = ids[i].clone();
        insert_sorted(&mut sorted, x);
        proof {
            assert(all.take(i + 1) =~= all.take(i as int).push(all[i as int]));
            all.take(i as int).lemma_push_to_set_commute(all[i as int]);
        }
        i = i + 1;
    }
    assert(all.take(ids.len() as int) =~= all);
    sorted
}

/// Trimming a class that neither end of `s` is in leaves `s` as it is.
proof fn lemma_trim_by_none(s: Seq<char>, k: CharClass)
    requires
        s.len() > 0 ==> !k.holds(s[0]) && !k.holds(s.last()),
    ensures
        trim_by(s, k) == s,
{
    if s.len() > 0 {
        crate::text::lemma_lead(s, k, 0);
        assert(crate::text::trim_start_by(s, k) =~= s);
        crate::text::lemma_trail(s, k, 0);
        assert(crate::text::trim_end_by(s, k) =~= s);
    } else {
        assert(crate::text::trim_start_by(s, k) =~= s);
        assert(crate::text::trim_end_by(s, k) =~= s);
    }
}

/// A checked user id checks again as itself.
pub proof fn lemma_validate_user_id_idempotent(id: Seq<char>)
    requires
        spec_validate_user_id(id) is Ok,
    ensures
        spec_validate_user_id(spec_validate_user_id(id)->Ok_0) == spec_validate_user_id(id),
{
    let u = spec_validate_user_id(id)->Ok_0;
    if u.len() > 0 {
        assert(CharClass::Digit.holds(u[0]) && CharClass::Digit.holds(u[u.len() - 1]));
    }
    lemma_trim_by_none(u, CharClass::Whitespace);
    lemma_trim_by_none(u, CharClass::Is('/'));
}

/// A checked channel id checks again as itself.
pub proof fn lemma_validate_channel_id_idempotent(id: Seq<char>)
    requires
        spec_validate_channel_id(id) is Ok,
    ensures
        spec_validate_channel_id(spec_validate_channel_id(id)->Ok_0) == spec_validate_channel_id(id),
{
    let c = spec_validate_channel_id(id)->Ok_0;
    reveal_strlit("/channel/");
    reveal_strlit("MPLA");
    reveal_strlit("UC");
    if c.len() > 0 {
        assert(CharClass::IdChar.holds(c[0]) && CharClass::IdChar.holds(c[c.len() - 1]));
    }
    lemma_trim_by_none(c, CharClass::Whitespace);
    lemma_trim_by_none(c, CharClass::Is('/'));
    lemma_rfind(c, "/channel/"@);
    if rfind(c, "/channel/"@) is Some {
        let i = rfind(c, "/channel/"@)->0;
        assert(c.subrange(i, i + 9)[0] == '/');
        assert(c[i] == '/');
        assert(CharClass::IdChar.holds(c[i]));
    }
    if c.len() > 0 {
        assert(c.take(4)[0] == 'U');
    }
}

} // verus!
