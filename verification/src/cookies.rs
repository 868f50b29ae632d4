//! Cookie handling: which cookies belong to a YouTube Music session and how
//! pasted or exported cookies become one `Cookie` header.
use vstd::prelude::*;
use crate::text::{lemma_select_contains, lemma_select_index, select_index, 
    ascii_lower, ascii_lower_window, chars_of, ends_with, join, lead_count, push_str, select,
    split_char, split_once, starts_with, string_of, trim, trim_start_by, trim_window, trimmed,
    vec_eq_str, window_ends_with, window_starts_with, CharClass, window_find, split_windows,
    windows_are, window_eq, join_strings, lemma_find, concat, contains, lines, line_windows,
    replace_line_breaks, replace_line_breaks_window, strip_prefix, decimal, u64_to_decimal,
    push_window, hex_lower, to_hex_lower, lemma_u64_decimal_len, lemma_encode_utf8_len,
};

verus! {

/// Longest `Cookie` header, in bytes, that is sent as it is.
pub const MAX_COOKIE_HEADER_BYTES: usize = 8 * 1024;

/// The YouTube Music origin.
pub const MUSIC_ORIGIN: &'static str = "https://music.youtube.com";

/// A domain with surrounding whitespace and leading dots removed, in ASCII lower case.
pub open spec fn domain_key(domain: Seq<char>) -> Seq<char> {
    ascii_lower(trim_start_by(trim(domain), CharClass::Is('.')))
}

pub open spec fn spec_is_youtube_cookie_domain(domain: Seq<char>) -> bool {
    let d = domain_key(domain);
    d == "youtube.com"@ || ends_with(d, ".youtube.com"@)
}

pub open spec fn spec_is_supported_cookie_domain(domain: Seq<char>) -> bool {
    let d = domain_key(domain);
    spec_is_youtube_cookie_domain(d) || d == "google.com"@ || ends_with(d, ".google.com"@)
}

/// Cookie names that YouTube sets for a signed-in session.
pub open spec fn likely_youtube_cookie_names() -> Seq<Seq<char>> {
    seq![
        "APISID"@,
        "CONSENT"@,
        "DEVICE_INFO"@,
        "GPS"@,
        "HSID"@,
        "LOGIN_INFO"@,
        "PREF"@,
        "SAPISID"@,
        "SID"@,
        "SIDCC"@,
        "SOCS"@,
        "SSID"@,
        "VISITOR_INFO1_LIVE"@,
        "VISITOR_PRIVACY_METADATA"@,
        "YSC"@,
    ]
}

/// Cookie names that YouTube Music needs to authenticate.
pub open spec fn music_auth_cookie_names() -> Seq<Seq<char>> {
    seq![
        "AEC"@,
        "APISID"@,
        "CONSENT"@,
        "DEVICE_INFO"@,
        "GPS"@,
        "HSID"@,
        "LOGIN_INFO"@,
        "NID"@,
        "PREF"@,
        "SAPISID"@,
        "SID"@,
        "SIDCC"@,
        "SOCS"@,
        "SSID"@,
        "VISITOR_INFO1_LIVE"@,
        "VISITOR_PRIVACY_METADATA"@,
        "YSC"@,
    ]
}

pub open spec fn has_secure_prefix(name: Seq<char>) -> bool {
    starts_with(name, "__Secure-1P"@) || starts_with(name, "__Secure-3P"@) || starts_with(
        name,
        "__Secure-Y"@,
    )
}

pub open spec fn spec_is_likely_youtube_cookie_name(name: Seq<char>) -> bool {
    likely_youtube_cookie_names().contains(name) || has_secure_prefix(name) || starts_with(
        name,
        "ST-"@,
    )
}

pub open spec fn spec_is_music_auth_cookie_name(name: Seq<char>) -> bool {
    music_auth_cookie_names().contains(name) || has_secure_prefix(name)
}

/// `name=value` of the trimmed name and value, where both are non-empty.
pub open spec fn spec_cookie_pair(name: Seq<char>, value: Seq<char>) -> Option<Seq<char>> {
    let n = trim(name);
    let v = trim(value);
    if n.len() > 0 && v.len() > 0 {
        Some(n + "="@ + v)
    } else {
        None
    }
}

/// The part of `name=value` before the first `=`, or all of it.
pub open spec fn spec_cookie_name(pair: Seq<char>) -> Seq<char> {
    match split_once(pair, seq!['=']) {
        Some((name, _)) => name,
        None => pair,
    }
}

/// The value of the first `;`-separated piece whose trimmed name is `name`.
pub open spec fn first_cookie_value(pieces: Seq<Seq<char>>, name: Seq<char>) -> Option<Seq<char>>
    decreases pieces.len(),
{
    if pieces.len() == 0 {
        None
    } else {
        match first_cookie_value(pieces.drop_last(), name) {
            Some(v) => Some(v),
            None => match split_once(trim(pieces.last()), seq!['=']) {
                Some((n, v)) => if trim(n) == name {
                    Some(trim(v))
                } else {
                    None
                },
                None => None,
            },
        }
    }
}

proof fn lemma_first_cookie_value_prefix(ps: Seq<Seq<char>>, name: Seq<char>, m: int)
    requires
        0 <= m <= ps.len(),
        first_cookie_value(ps.take(m), name) is Some,
    ensures
        first_cookie_value(ps, name) == first_cookie_value(ps.take(m), name),
    decreases ps.len(),
{
    if m == ps.len() {
        assert(ps.take(m) =~= ps);
    } else {
        assert(ps.drop_last().take(m) =~= ps.take(m));
        lemma_first_cookie_value_prefix(ps.drop_last(), name, m);
    }
}

pub open spec fn spec_cookie_value(cookies: Seq<char>, name: Seq<char>) -> Option<Seq<char>> {
    first_cookie_value(split_char(cookies, ';'), name)
}

/// No later pair in `pairs` has the same name as `pairs[i]`.
pub open spec fn last_of_name(pairs: Seq<Seq<char>>, i: int) -> bool {
    forall|j: int|
        i < j < pairs.len() ==> spec_cookie_name(#[trigger] pairs[j]) != spec_cookie_name(pairs[i])
}

pub open spec fn last_of_name_at(pairs: Seq<Seq<char>>) -> spec_fn(int) -> bool {
    |i: int| last_of_name(pairs, i)
}

/// The pairs that no later pair overrides, in their order.
pub open spec fn keep_last(pairs: Seq<Seq<char>>) -> Seq<Seq<char>> {
    select(pairs, last_of_name_at(pairs), pairs.len() as int)
}

pub open spec fn spec_join_cookie_pairs(pairs: Seq<Seq<char>>) -> Seq<char> {
    join(keep_last(pairs), "; "@)
}

pub open spec fn byte_len(s: Seq<char>) -> nat {
    vstd::utf8::encode_utf8(s).len()
}

pub open spec fn spec_compact_cookie_header(pairs: Seq<Seq<char>>) -> Seq<char> {
    let joined = spec_join_cookie_pairs(pairs);
    if byte_len(joined) <= MAX_COOKIE_HEADER_BYTES {
        joined
    } else {
        spec_join_cookie_pairs(
            pairs.filter(|p: Seq<char>| spec_is_likely_youtube_cookie_name(spec_cookie_name(p))),
        )
    }
}

pub open spec fn views(v: Seq<String>) -> Seq<Seq<char>> {
    v.map_values(|s: String| s@)
}

pub proof fn lemma_views_push(s: Seq<String>, x: String)
    ensures
        views(s.push(x)) == views(s).push(x@),
{
    assert forall|j: int| 0 <= j < s.len() + 1 implies views(s.push(x))[j] == views(s).push(x@)[j] by {
        if j < s.len() {
            assert(views(s)[j] == s[j]@);
        }
    }
    assert(views(s.push(x)) =~= views(s).push(x@));
}

fn domain_key_of(domain: &str) -> (r: Vec<char>)
    ensures
        r@ == domain_key(domain@),
{
    let v = chars_of(domain);
    let (a, b) = trim_window(&v, 0, v.len(), &CharClass::Whitespace);
    let n = lead_count(&v, a, b, &CharClass::Is('.'));
    proof {
        assert(v@.subrange(0, v@.len() as int) =~= v@);
        assert(trim_start_by(v@.subrange(a as int, b as int), CharClass::Is('.'))
            =~= v@.subrange(a + n, b as int));
    }
    ascii_lower_window(&v, a + n, b)
}

fn youtube_key(d: &Vec<char>) -> (r: bool)
    ensures
        r == (d@ == "youtube.com"@ || ends_with(d@, ".youtube.com"@)),
{
    assert(d@.subrange(0, d@.len() as int) =~= d@);
    vec_eq_str(d, 0, d.len(), "youtube.com") || window_ends_with(d, 0, d.len(), ".youtube.com")
}

/// Whether a cookie's domain is YouTube's.
pub fn is_youtube_cookie_domain(domain: &str) -> (r: bool)
    ensures
        r == spec_is_youtube_cookie_domain(domain@),
{
    let d = domain_key_of(domain);
    youtube_key(&d)
}

/// Whether a cookie's domain is YouTube's or Google's.
pub fn is_supported_cookie_domain(domain: &str) -> (r: bool)
    ensures
        r == spec_is_supported_cookie_domain(domain@),
{
    let d = domain_key_of(domain);
    let s = string_of(&d, 0, d.len());
    assert(d@.subrange(0, d@.len() as int) =~= d@);
    is_youtube_cookie_domain(s.as_str()) || vec_eq_str(&d, 0, d.len(), "google.com")
        || window_ends_with(&d, 0, d.len(), ".google.com")
}

fn in_list(name: &Vec<char>, list: &Vec<&str>) -> (r: bool)
    ensures
        r == list@.map_values(|x: &str| x@).contains(name@),
{
    let ghost l = list@.map_values(|x: &str| x@);
    let mut i: usize = 0;
    while i < list.len()
        invariant
            0 <= i <= list.len(),
            l == list@.map_values(|x: &str| x@),
            forall|j: int| 0 <= j < i ==> l[j] != name@,
        decreases list.len() - i,
    {
        assert(name@.subrange(0, name@.len() as int) =~= name@);
        if vec_eq_str(name, 0, name.len(), list[i]) {
            assert(l[i as int] == name@);
            return true;
        }
        i = i + 1;
    }
    false
}

fn has_secure_prefix_exec(n: &Vec<char>) -> (r: bool)
    ensures
        r == has_secure_prefix(n@),
{
    assert(n@.subrange(0, n@.len() as int) =~= n@);
    window_starts_with(n, 0, n.len(), "__Secure-1P") || window_starts_with(
        n,
        0,
        n.len(),
        "__Secure-3P",
    ) || window_starts_with(n, 0, n.len(), "__Secure-Y")
}

/// Whether a cookie name is one that a signed-in YouTube session sets.
pub fn is_likely_youtube_cookie_name(name: &str) -> (r: bool)
    ensures
        r == spec_is_likely_youtube_cookie_name(name@),
{
    let n = chars_of(name);
    let list = vec![
        "APISID",
        "CONSENT",
        "DEVICE_INFO",
        "GPS",
        "HSID",
        "LOGIN_INFO",
        "PREF",
        "SAPISID",
        "SID",
        "SIDCC",
        "SOCS",
        "SSID",
        "VISITOR_INFO1_LIVE",
        "VISITOR_PRIVACY_METADATA",
        "YSC",
    ];
    assert(list@.map_values(|x: &str| x@) =~= likely_youtube_cookie_names());
    assert(n@.subrange(0, n@.len() as int) =~= n@);
    in_list(&n, &list) || has_secure_prefix_exec(&n) || window_starts_with(&n, 0, n.len(), "ST-")
}

/// Whether a cookie name is one that YouTube Music authentication needs.
pub fn is_music_auth_cookie_name(name: &str) -> (r: bool)
    ensures
        r == spec_is_music_auth_cookie_name(name@),
{
    let n = chars_of(name);
    let list = vec![
        "AEC",
        "APISID",
        "CONSENT",
        "DEVICE_INFO",
        "GPS",
        "HSID",
        "LOGIN_INFO",
        "NID",
        "PREF",
        "SAPISID",
        "SID",
        "SIDCC",
        "SOCS",
        "SSID",
        "VISITOR_INFO1_LIVE",
        "VISITOR_PRIVACY_METADATA",
        "YSC",
    ];
    assert(list@.map_values(|x: &str| x@) =~= music_auth_cookie_names());
    in_list(&n, &list) || has_secure_prefix_exec(&n)
}

/// `name=value` of the trimmed name and value, unless one of them is empty.
pub fn cookie_pair(name: &str, value: &str) -> (r: Option<String>)
    ensures
        r matches Some(s) ==> spec_cookie_pair(name@, value@) == Some(s@),
        r is None ==> spec_cookie_pair(name@, value@) is None,
{
    let n = trimmed(name);
    let v = trimmed(value);
    if n.as_str().unicode_len() == 0 || v.as_str().unicode_len() == 0 {
        return None;
    }
    let mut out = n;
    push_str(&mut out, "=");
    push_str(&mut out, v.as_str());
    Some(out)
}


fn cookie_name_chars(pair: &str) -> (r: Vec<char>)
    ensures
        r@ == spec_cookie_name(pair@),
{
    let v = chars_of(pair);
    assert(v@.subrange(0, v@.len() as int) =~= v@);
    match window_find(&v, 0, v.len(), "=") {
        Some(k) => {
            proof {
                reveal_strlit("=");
                assert("="@ =~= seq!['=']);
            }
            let r = string_of(&v, 0, k);
            chars_of(r.as_str())
        },
        None => {
            proof {
                reveal_strlit("=");
                assert("="@ =~= seq!['=']);
            }
            v
        },
    }
}

/// The name of a `name=value` pair: the part before the first `=`, or all of it.
pub fn cookie_name(pair: &str) -> (r: &str)
    ensures
        r@ == spec_cookie_name(pair@),
{
    let v = chars_of(pair);
    assert(v@.subrange(0, v@.len() as int) =~= v@);
    proof {
        reveal_strlit("=");
        assert("="@ =~= seq!['=']);
    }
    match window_find(&v, 0, v.len(), "=") {
        Some(k) => pair.substring_char(0, k),
        None => pair,
    }
}

/// The value of the cookie `name` in a `Cookie` header.
pub fn cookie_value<'a>(cookies: &'a str, name: &str) -> (r: Option<&'a str>)
    ensures
        r matches Some(v) ==> spec_cookie_value(cookies@, name@) == Some(v@) && v@.len()
            <= cookies@.len(),
        r is None ==> spec_cookie_value(cookies@, name@) is None,
{
    proof {
        reveal_strlit("=");
        assert("="@ =~= seq!['=']);
    }
    let v = chars_of(cookies);
    let want = chars_of(name);
    let pieces = split_windows(&v, 0, v.len(), ';');
    let ghost ps = split_char(v@.subrange(0, v@.len() as int), ';');
    assert(v@.subrange(0, v@.len() as int) =~= cookies@);
    let mut k: usize = 0;
    while k < pieces.len()
        invariant
            0 <= k <= pieces.len(),
            v@ == cookies@,
            want@ == name@,
            ps == split_char(cookies@, ';'),
            windows_are(v@, pieces@, 0, v@.len() as int, ps),
            first_cookie_value(ps.take(k as int), name@) is None,
        decreases pieces.len() - k,
    {
        let (pa, pb) = pieces[k];
        assert(pieces@[k as int] == (pa, pb));
        assert(ps.take(k + 1).drop_last() =~= ps.take(k as int));
        let (a, b) = trim_window(&v, pa, pb, &CharClass::Whitespace);
        let ghost t = trim(ps[k as int]);
        proof {
            reveal_strlit("=");
            assert("="@ =~= seq!['=']);
            assert(t == v@.subrange(a as int, b as int));
            assert(ps.take(k + 1).last() == ps[k as int]);
        }
        match window_find(&v, a, b, "=") {
            Some(e) => {
                proof {
                    lemma_find(v@.subrange(a as int, b as int), "="@);
                    assert(t.take(e - a) =~= v@.subrange(a as int, e as int));
                    assert(t.skip(e - a + 1) =~= v@.subrange(e + 1, b as int));
                    assert(split_once(t, seq!['=']) == Some((t.take(e - a), t.skip(e - a + 1))));
                }
                let (na, nb) = trim_window(&v, a, e, &CharClass::Whitespace);
                if window_eq(&v, na, nb, &want) {
                    let (va, vb) = trim_window(&v, e + 1, b, &CharClass::Whitespace);
                    proof {
                        lemma_first_cookie_value_prefix(ps, name@, k + 1);
                    }
                    return Some(cookies.substring_char(va, vb));
                }
            },
            None => {
                assert(split_once(t, seq!['=']) is None);
            },
        }
        k = k + 1;
    }
    assert(ps.take(pieces.len() as int) =~= ps);
    None
}

fn keep_last_pairs(pairs: &Vec<String>) -> (r: Vec<String>)
    ensures
        views(r@) == keep_last(views(pairs@)),
{
    let ghost vs = views(pairs@);
    let mut names: Vec<Vec<char>> = Vec::new();
    let mut i: usize = 0;
    while i < pairs.len()
        invariant
            0 <= i <= pairs.len(),
            vs == views(pairs@),
            names@.len() == i,
            forall|j: int| 0 <= j < i ==> (#[trigger] names@[j])@ == spec_cookie_name(vs[j]),
        decreases pairs.len() - i,
    {
        names.push(cookie_name_chars(pairs[i].as_str()));
        i = i + 1;
    }
    let mut out: Vec<String> = Vec::new();
    let mut i: usize = 0;
    while i < pairs.len()
        invariant
            0 <= i <= pairs.len(),
            vs == views(pairs@),
            names@.len() == pairs@.len(),
            forall|j: int| 0 <= j < pairs@.len() ==> (#[trigger] names@[j])@ == spec_cookie_name(vs[j]),
            views(out@) == select(vs, last_of_name_at(vs), i as int),
        decreases pairs.len() - i,
    {
        let mut later_same = false;
        let mut j = i + 1;
        while j < pairs.len()
            invariant
                i < j <= pairs.len(),
                names@.len() == pairs@.len(),
                vs == views(pairs@),
                forall|m: int| 0 <= m < pairs@.len() ==> (#[trigger] names@[m])@ == spec_cookie_name(vs[m]),
                later_same == exists|m: int| i < m < j && spec_cookie_name(#[trigger] vs[m]) == spec_cookie_name(vs[i as int]),
            decreases pairs.len() - j,
        {
            let n = &names[j];
            let ni = &names[i];
            assert(n@.subrange(0, n@.len() as int) =~= n@);
            if window_eq(n, 0, n.len(), ni) {
                assert(spec_cookie_name(vs[j as int]) == spec_cookie_name(vs[i as int]));
                later_same = true;
            }
            j = j + 1;
        }
        if !later_same {
            out.push(pairs[i].clone());
        }
        proof {
            assert(last_of_name(vs, i as int) == !later_same);
            assert(views(out@) =~= select(vs, last_of_name_at(vs), i + 1));
        }
        i = i + 1;
    }
    out
}

/// The pairs joined with `"; "`, each name kept once with its last value.
pub fn join_cookie_pairs(pairs: Vec<String>) -> (r: String)
    ensures
        r@ == spec_join_cookie_pairs(views(pairs@)),
{
    let kept = keep_last_pairs(&pairs);
    join_strings(&kept, "; ")
}

fn likely_pairs(pairs: &Vec<String>) -> (r: Vec<String>)
    ensures
        views(r@) == views(pairs@).filter(
            |p: Seq<char>| spec_is_likely_youtube_cookie_name(spec_cookie_name(p)),
        ),
{
    let ghost vs = views(pairs@);
    let ghost pred = |p: Seq<char>| spec_is_likely_youtube_cookie_name(spec_cookie_name(p));
    let mut out: Vec<String> = Vec::new();
    let mut i: usize = 0;
    while i < pairs.len()
        invariant
            0 <= i <= pairs.len(),
            vs == views(pairs@),
            pred == (|p: Seq<char>| spec_is_likely_youtube_cookie_name(spec_cookie_name(p))),
            views(out@) == vs.take(i as int).filter(pred),
        decreases pairs.len() - i,
    {
        proof {
            reveal_with_fuel(Seq::<_>::filter, 1);
            assert(vs.take(i + 1).drop_last() =~= vs.take(i as int));
        }
        let name = cookie_name(pairs[i].as_str());
        if is_likely_youtube_cookie_name(name) {
            out.push(pairs[i].clone());
            assert(views(out@) =~= vs.take(i + 1).filter(pred));
        }
        i = i + 1;
    }
    assert(vs.take(pairs.len() as int) =~= vs);
    out
}

/// The pairs as one `Cookie` header; where that is longer than
/// `MAX_COOKIE_HEADER_BYTES`, only the pairs with likely YouTube names.
pub fn compact_cookie_header(pairs: Vec<String>) -> (r: String)
    ensures
        r@ == spec_compact_cookie_header(views(pairs@)),
{
    let joined = join_cookie_pairs(keep_all(&pairs));
    if joined.as_str().as_bytes().len() <= MAX_COOKIE_HEADER_BYTES {
        return joined;
    }
    join_cookie_pairs(likely_pairs(&pairs))
}

fn keep_all(pairs: &Vec<String>) -> (r: Vec<String>)
    ensures
        views(r@) == views(pairs@),
{
    let mut out: Vec<String> = Vec::new();
    let mut i: usize = 0;
    while i < pairs.len()
        invariant
            0 <= i <= pairs.len(),
            views(out@) == views(pairs@).take(i as int),
        decreases pairs.len() - i,
    {
        let c = pairs[i].clone();
        proof {
            lemma_views_push(out@, c);
        }
        out.push(c);
        i = i + 1;
        assert(views(out@) =~= views(pairs@).take(i as int));
    }
    assert(views(pairs@).take(pairs.len() as int) =~= views(pairs@));
    out
}


pub proof fn lemma_views_insert(s: Seq<String>, i: int, x: String)
    requires
        0 <= i <= s.len(),
    ensures
        views(s.insert(i, x)) == views(s).insert(i, x@),
{
    assert forall|j: int| 0 <= j < s.len() + 1 implies views(s.insert(i, x))[j] == views(s).insert(
        i,
        x@,
    )[j] by {
        if j < i {
            assert(views(s)[j] == s[j]@);
        } else if j > i {
            assert(views(s)[j - 1] == s[j - 1]@);
        }
    }
    assert(views(s.insert(i, x)) =~= views(s).insert(i, x@));
}

pub proof fn lemma_views_append(a: Seq<String>, b: Seq<String>)
    ensures
        views(a + b) == views(a) + views(b),
{
    assert forall|j: int| 0 <= j < a.len() + b.len() implies views(a + b)[j] == (views(a) + views(b))[j] by {
        if j < a.len() {
            assert(views(a)[j] == a[j]@);
        } else {
            assert(views(b)[j - a.len()] == b[j - a.len()]@);
        }
    }
    assert(views(a + b) =~= views(a) + views(b));
}

/// A trimmed `;`-separated piece that can be a cookie pair.
pub open spec fn is_pair_piece(p: Seq<char>, forbid_colon: bool) -> bool {
    p.len() > 0 && contains(p, "="@) && (!forbid_colon || !contains(p, ":"@))
}

pub open spec fn pair_piece_filter(forbid_colon: bool) -> spec_fn(Seq<char>) -> bool {
    |p: Seq<char>| is_pair_piece(p, forbid_colon)
}

/// The trimmed `;`-separated pieces of `s` that can be cookie pairs.
pub open spec fn pair_pieces(s: Seq<char>, forbid_colon: bool) -> Seq<Seq<char>> {
    split_char(s, ';').map_values(|p: Seq<char>| trim(p)).filter(pair_piece_filter(forbid_colon))
}

/// The pairs of one trimmed line of the form `Cookie: a=b; c=d`.
pub open spec fn header_line_pairs(line: Seq<char>) -> Seq<Seq<char>> {
    let rest = match strip_prefix(line, "cookie:"@) {
        Some(r) => Some(r),
        None => strip_prefix(line, "Cookie:"@),
    };
    match rest {
        Some(r) => pair_pieces(trim(r), false),
        None => Seq::empty(),
    }
}

/// The pair of one trimmed line of a Netscape `cookies.txt` export.
pub open spec fn netscape_line_pair(line: Seq<char>) -> Seq<Seq<char>> {
    if line.len() > 0 && !starts_with(line, "#"@) {
        let parts = split_char(line, '\t');
        if parts.len() >= 7 && spec_is_supported_cookie_domain(parts[0]) {
            match spec_cookie_pair(parts[5], parts[6]) {
                Some(p) => seq![p],
                None => Seq::empty(),
            }
        } else {
            Seq::empty()
        }
    } else {
        Seq::empty()
    }
}

pub open spec fn header_pairs(raw: Seq<char>) -> Seq<Seq<char>> {
    concat(lines(raw).map_values(|l: Seq<char>| header_line_pairs(trim(l))))
}

pub open spec fn netscape_pairs(raw: Seq<char>) -> Seq<Seq<char>> {
    concat(lines(raw).map_values(|l: Seq<char>| netscape_line_pair(trim(l))))
}

/// The body of a bare header, a leading `Cookie:` removed.
pub open spec fn plain_body(raw: Seq<char>) -> Seq<char> {
    match strip_prefix(raw, "Cookie:"@) {
        Some(r) => r,
        None => match strip_prefix(raw, "cookie:"@) {
            Some(r) => r,
            None => raw,
        },
    }
}

pub open spec fn plain_pairs(raw: Seq<char>) -> Seq<Seq<char>> {
    pair_pieces(replace_line_breaks(plain_body(raw)), true)
}

/// A `Cookie` header made of pasted text: `Cookie:` lines, a Netscape
/// `cookies.txt` export, or a bare header, tried in that order.
pub open spec fn spec_normalize_cookies(input: Seq<char>) -> Seq<char> {
    let raw = trim(input);
    if raw.len() == 0 {
        Seq::empty()
    } else if header_pairs(raw).len() > 0 {
        spec_compact_cookie_header(header_pairs(raw))
    } else if netscape_pairs(raw).len() > 0 {
        spec_compact_cookie_header(netscape_pairs(raw))
    } else {
        spec_compact_cookie_header(plain_pairs(raw))
    }
}

fn pair_pieces_exec(v: &Vec<char>, lo: usize, hi: usize, forbid_colon: bool) -> (r: Vec<String>)
    requires
        lo <= hi <= v.len(),
    ensures
        views(r@) == pair_pieces(v@.subrange(lo as int, hi as int), forbid_colon),
{
    let pieces = split_windows(v, lo, hi, ';');
    let ghost ps = split_char(v@.subrange(lo as int, hi as int), ';');
    let ghost ts = ps.map_values(|p: Seq<char>| trim(p));
    let ghost pred = pair_piece_filter(forbid_colon);
    let mut out: Vec<String> = Vec::new();
    let mut k: usize = 0;
    while k < pieces.len()
        invariant
            0 <= k <= pieces.len(),
            lo <= hi <= v.len(),
            windows_are(v@, pieces@, lo as int, hi as int, ps),
            ts == ps.map_values(|p: Seq<char>| trim(p)),
            pred == pair_piece_filter(forbid_colon),
            views(out@) == ts.take(k as int).filter(pred),
        decreases pieces.len() - k,
    {
        let (pa, pb) = pieces[k];
        assert(pieces@[k as int] == (pa, pb));
        let (a, b) = trim_window(v, pa, pb, &CharClass::Whitespace);
        proof {
            reveal_with_fuel(Seq::<_>::filter, 1);
            assert(ts.take(k + 1).drop_last() =~= ts.take(k as int));
            assert(ts[k as int] == v@.subrange(a as int, b as int));
        }
        let keep = a < b && window_find(v, a, b, "=").is_some() && (!forbid_colon || window_find(
            v,
            a,
            b,
            ":",
        ).is_none());
        if keep {
            let piece = string_of(v, a, b);
            proof {
                lemma_views_push(out@, piece);
            }
            out.push(piece);
        }
        k = k + 1;
    }
    assert(ts.take(pieces.len() as int) =~= ts);
    out
}

fn header_line_pairs_exec(v: &Vec<char>, lo: usize, hi: usize) -> (r: Vec<String>)
    requires
        lo <= hi <= v.len(),
    ensures
        views(r@) == header_line_pairs(v@.subrange(lo as int, hi as int)),
{
    proof {
        reveal_strlit("cookie:");
        reveal_strlit("Cookie:");
    }
    let ghost line = v@.subrange(lo as int, hi as int);
    let rest = if window_starts_with(v, lo, hi, "cookie:") {
        assert(line.skip(7) =~= v@.subrange(lo + 7, hi as int));
        lo + 7
    } else if window_starts_with(v, lo, hi, "Cookie:") {
        assert(line.skip(7) =~= v@.subrange(lo + 7, hi as int));
        lo + 7
    } else {
        return Vec::new();
    };
    let (a, b) = trim_window(v, rest, hi, &CharClass::Whitespace);
    pair_pieces_exec(v, a, b, false)
}

fn netscape_line_pair_exec(v: &Vec<char>, lo: usize, hi: usize) -> (r: Vec<String>)
    requires
        lo <= hi <= v.len(),
    ensures
        views(r@) == netscape_line_pair(v@.subrange(lo as int, hi as int)),
{
    proof {
        reveal_strlit("#");
    }
    if lo == hi || window_starts_with(v, lo, hi, "#") {
        return Vec::new();
    }
    let parts = split_windows(v, lo, hi, '\t');
    let ghost ps = split_char(v@.subrange(lo as int, hi as int), '\t');
    if parts.len() < 7 {
        return Vec::new();
    }
    let (da, db) = parts[0];
    let (na, nb) = parts[5];
    let (xa, xb) = parts[6];
    assert(parts@[0] == (da, db));
    assert(parts@[5] == (na, nb));
    assert(parts@[6] == (xa, xb));
    let domain = string_of(v, da, db);
    if !is_supported_cookie_domain(domain.as_str()) {
        return Vec::new();
    }
    let name = string_of(v, na, nb);
    let value = string_of(v, xa, xb);
    let mut out: Vec<String> = Vec::new();
    match cookie_pair(name.as_str(), value.as_str()) {
        Some(p) => {
            out.push(p);
            assert(views(out@) =~= seq![p@]);
        },
        None => {},
    }
    out
}

fn header_pairs_exec(v: &Vec<char>, lo: usize, hi: usize) -> (r: Vec<String>)
    requires
        lo <= hi <= v.len(),
    ensures
        views(r@) == header_pairs(v@.subrange(lo as int, hi as int)),
{
    let lw = line_windows(v, lo, hi);
    let ghost ls = lines(v@.subrange(lo as int, hi as int));
    let ghost fs = ls.map_values(|l: Seq<char>| header_line_pairs(trim(l)));
    let mut out: Vec<String> = Vec::new();
    let mut k: usize = 0;
    while k < lw.len()
        invariant
            0 <= k <= lw.len(),
            lo <= hi <= v.len(),
            windows_are(v@, lw@, lo as int, hi as int, ls),
            fs == ls.map_values(|l: Seq<char>| header_line_pairs(trim(l))),
            views(out@) == concat(fs.take(k as int)),
        decreases lw.len() - k,
    {
        let (la, lb) = lw[k];
        assert(lw@[k as int] == (la, lb));
        let (a, b) = trim_window(v, la, lb, &CharClass::Whitespace);
        let mut r = header_line_pairs_exec(v, a, b);
        proof {
            lemma_views_append(out@, r@);
            assert(fs.take(k + 1).drop_last() =~= fs.take(k as int));
        }
        out.append(&mut r);
        k = k + 1;
    }
    assert(fs.take(lw.len() as int) =~= fs);
    out
}

fn netscape_pairs_exec(v: &Vec<char>, lo: usize, hi: usize) -> (r: Vec<String>)
    requires
        lo <= hi <= v.len(),
    ensures
        views(r@) == netscape_pairs(v@.subrange(lo as int, hi as int)),
{
    let lw = line_windows(v, lo, hi);
    let ghost ls = lines(v@.subrange(lo as int, hi as int));
    let ghost fs = ls.map_values(|l: Seq<char>| netscape_line_pair(trim(l)));
    let mut out: Vec<String> = Vec::new();
    let mut k: usize = 0;
    while k < lw.len()
        invariant
            0 <= k <= lw.len(),
            lo <= hi <= v.len(),
            windows_are(v@, lw@, lo as int, hi as int, ls),
            fs == ls.map_values(|l: Seq<char>| netscape_line_pair(trim(l))),
            views(out@) == concat(fs.take(k as int)),
        decreases lw.len() - k,
    {
        let (la, lb) = lw[k];
        assert(lw@[k as int] == (la, lb));
        let (a, b) = trim_window(v, la, lb, &CharClass::Whitespace);
        let mut r = netscape_line_pair_exec(v, a, b);
        proof {
            lemma_views_append(out@, r@);
            assert(fs.take(k + 1).drop_last() =~= fs.take(k as int));
        }
        out.append(&mut r);
        k = k + 1;
    }
    assert(fs.take(lw.len() as int) =~= fs);
    out
}

/// A `Cookie` header made of pasted cookies: `Cookie:` header lines, a Netscape
/// `cookies.txt` export, or a bare `name=value; ...` header.
pub fn normalize_cookies(input: &str) -> (r: String)
    ensures
        r@ == spec_normalize_cookies(input@),
{
    proof {
        reveal_strlit("cookie:");
        reveal_strlit("Cookie:");
    }
    let v = chars_of(input);
    let (a, b) = trim_window(&v, 0, v.len(), &CharClass::Whitespace);
    assert(v@.subrange(0, v@.len() as int) =~= input@);
    if a == b {
        return String::new();
    }
    let header = header_pairs_exec(&v, a, b);
    if header.len() > 0 {
        return compact_cookie_header(header);
    }
    let netscape = netscape_pairs_exec(&v, a, b);
    if netscape.len() > 0 {
        return compact_cookie_header(netscape);
    }
    let ghost raw = v@.subrange(a as int, b as int);
    let body_lo = if window_starts_with(&v, a, b, "Cookie:") {
        assert(raw.skip(7) =~= v@.subrange(a + 7, b as int));
        a + 7
    } else if window_starts_with(&v, a, b, "cookie:") {
        assert(raw.skip(7) =~= v@.subrange(a + 7, b as int));
        a + 7
    } else {
        a
    };
    let body = replace_line_breaks_window(&v, body_lo, b);
    assert(body@.subrange(0, body@.len() as int) =~= body@);
    compact_cookie_header(pair_pieces_exec(&body, 0, body.len(), true))
}


/// A cookie of the in-app login webview, as plain values.
pub struct WebviewCookie {
    pub domain: Option<String>,
    pub name: String,
    pub value: String,
}

pub open spec fn webview_cookie_pair(c: WebviewCookie) -> Seq<Seq<char>> {
    let supported = match c.domain {
        Some(d) => spec_is_supported_cookie_domain(d@),
        None => spec_is_likely_youtube_cookie_name(c.name@),
    };
    if supported {
        match spec_cookie_pair(c.name@, c.value@) {
            Some(p) => seq![p],
            None => Seq::empty(),
        }
    } else {
        Seq::empty()
    }
}

pub open spec fn spec_normalize_webview_cookies(cookies: Seq<WebviewCookie>) -> Seq<char> {
    spec_compact_cookie_header(concat(cookies.map_values(|c: WebviewCookie| webview_cookie_pair(c))))
}

/// The `Cookie` header of the in-app login webview's YouTube and Google cookies.
pub fn normalize_webview_cookies(cookies: Vec<WebviewCookie>) -> (r: String)
    ensures
        r@ == spec_normalize_webview_cookies(cookies@),
{
    let ghost fs = cookies@.map_values(|c: WebviewCookie| webview_cookie_pair(c));
    let mut pairs: Vec<String> = Vec::new();
    let mut k: usize = 0;
    while k < cookies.len()
        invariant
            0 <= k <= cookies.len(),
            fs == cookies@.map_values(|c: WebviewCookie| webview_cookie_pair(c)),
            views(pairs@) == concat(fs.take(k as int)),
        decreases cookies.len() - k,
    {
        let c = &cookies[k];
        assert(fs.take(k + 1).drop_last() =~= fs.take(k as int));
        let supported = match &c.domain {
            Some(d) => is_supported_cookie_domain(d.as_str()),
            None => is_likely_youtube_cookie_name(c.name.as_str()),
        };
        if supported {
            match cookie_pair(c.name.as_str(), c.value.as_str()) {
                Some(p) => {
                    proof {
                        lemma_views_push(pairs@, p);
                    }
                    pairs.push(p);
                },
                None => {},
            }
        }
        k = k + 1;
        assert(views(pairs@) =~= concat(fs.take(k as int)));
    }
    assert(fs.take(cookies.len() as int) =~= fs);
    compact_cookie_header(pairs)
}

/// One line of `sqlite3` output, `host|name|value`, as its three fields.
pub open spec fn sqlite_fields(line: Seq<char>) -> Option<(Seq<char>, Seq<char>, Seq<char>)> {
    match split_once(line, "|"@) {
        Some((host, rest)) => match split_once(rest, "|"@) {
            Some((name, value)) => Some((host, name, value)),
            None => None,
        },
        None => None,
    }
}

pub open spec fn firefox_line_pair(line: Seq<char>) -> Seq<Seq<char>> {
    match sqlite_fields(line) {
        Some((host, name, value)) => if spec_is_supported_cookie_domain(host)
            && spec_is_music_auth_cookie_name(name) {
            match spec_cookie_pair(name, value) {
                Some(p) => seq![p],
                None => Seq::empty(),
            }
        } else {
            Seq::empty()
        },
        None => Seq::empty(),
    }
}

pub open spec fn spec_firefox_cookie_header(output: Seq<char>) -> Seq<char> {
    spec_join_cookie_pairs(concat(lines(output).map_values(|l: Seq<char>| firefox_line_pair(l))))
}

fn firefox_line_pair_exec(v: &Vec<char>, lo: usize, hi: usize) -> (r: Vec<String>)
    requires
        lo <= hi <= v.len(),
    ensures
        views(r@) == firefox_line_pair(v@.subrange(lo as int, hi as int)),
{
    proof {
        reveal_strlit("|");
    }
    let ghost line = v@.subrange(lo as int, hi as int);
    let mut out: Vec<String> = Vec::new();
    match window_find(v, lo, hi, "|") {
        Some(i) => {
            assert(line.take(i - lo) =~= v@.subrange(lo as int, i as int));
            assert(line.skip(i - lo + 1) =~= v@.subrange(i + 1, hi as int));
            match window_find(v, i + 1, hi, "|") {
                Some(j) => {
                    let ghost rest = v@.subrange(i + 1, hi as int);
                    assert(rest.take(j - i - 1) =~= v@.subrange(i + 1, j as int));
                    assert(rest.skip(j - i - 1 + 1) =~= v@.subrange(j + 1, hi as int));
                    let host = string_of(v, lo, i);
                    let name = string_of(v, i + 1, j);
                    let value = string_of(v, j + 1, hi);
                    if is_supported_cookie_domain(host.as_str()) && is_music_auth_cookie_name(
                        name.as_str(),
                    ) {
                        match cookie_pair(name.as_str(), value.as_str()) {
                            Some(p) => {
                                out.push(p);
                                assert(views(out@) =~= seq![p@]);
                            },
                            None => {},
                        }
                    }
                },
                None => {},
            }
        },
        None => {},
    }
    out
}

/// The `Cookie` header of the YouTube Music cookies in the output of
/// `sqlite3` on a Firefox cookie database.
pub fn firefox_cookie_header(output: &str) -> (r: String)
    ensures
        r@ == spec_firefox_cookie_header(output@),
{
    let v = chars_of(output);
    assert(v@.subrange(0, v@.len() as int) =~= output@);
    let lw = line_windows(&v, 0, v.len());
    let ghost ls = lines(output@);
    let ghost fs = ls.map_values(|l: Seq<char>| firefox_line_pair(l));
    let mut out: Vec<String> = Vec::new();
    let mut k: usize = 0;
    while k < lw.len()
        invariant
            0 <= k <= lw.len(),
            v@ == output@,
            windows_are(v@, lw@, 0, v@.len() as int, ls),
            fs == ls.map_values(|l: Seq<char>| firefox_line_pair(l)),
            views(out@) == concat(fs.take(k as int)),
        decreases lw.len() - k,
    {
        let (la, lb) = lw[k];
        assert(lw@[k as int] == (la, lb));
        let mut r = firefox_line_pair_exec(&v, la, lb);
        proof {
            lemma_views_append(out@, r@);
            assert(fs.take(k + 1).drop_last() =~= fs.take(k as int));
        }
        out.append(&mut r);
        k = k + 1;
    }
    assert(fs.take(lw.len() as int) =~= fs);
    join_cookie_pairs(out)
}

/// Seconds for which an exported cookie stays valid.
pub const COOKIE_FILE_LIFETIME_SECS: u64 = 30 * 24 * 60 * 60;

pub open spec fn netscape_line(pair: Seq<char>, expires: nat) -> Seq<char> {
    match split_once(pair, "="@) {
        Some((name, value)) => if trim(name).len() == 0 || contains(value, "\r"@) || contains(
            value,
            "\n"@,
        ) || contains(value, "\t"@) {
            Seq::empty()
        } else {
            ".youtube.com\tTRUE\t/\tTRUE\t"@ + decimal(expires) + "\t"@ + trim(name) + "\t"@
                + trim(value) + "\n"@
        },
        None => Seq::empty(),
    }
}

pub open spec fn nonempty_piece() -> spec_fn(Seq<char>) -> bool {
    |p: Seq<char>| p.len() > 0
}

/// The Netscape `cookies.txt` body for the pairs of a `Cookie` header, every
/// cookie for `.youtube.com` and valid until `expires`.
pub open spec fn spec_netscape_cookie_file(cookies: Seq<char>, expires: nat) -> Option<Seq<char>> {
    if trim(cookies).len() == 0 {
        None
    } else {
        let pairs = split_char(cookies, ';').map_values(|p: Seq<char>| trim(p)).filter(
            nonempty_piece(),
        );
        Some(
            "# Netscape HTTP Cookie File\n"@ + concat(
                pairs.map_values(|p: Seq<char>| netscape_line(p, expires)),
            ),
        )
    }
}

fn has_char(v: &Vec<char>, lo: usize, hi: usize, lit: &str) -> (r: bool)
    requires
        lo <= hi <= v.len(),
    ensures
        r == contains(v@.subrange(lo as int, hi as int), lit@),
{
    window_find(v, lo, hi, lit).is_some()
}

/// Appends `netscape_line` of the pair `v[lo..hi]` to `out`.
fn push_netscape_line(out: &mut String, v: &Vec<char>, lo: usize, hi: usize, expires: u64)
    requires
        lo <= hi <= v.len(),
    ensures
        final(out)@ == old(out)@ + netscape_line(v@.subrange(lo as int, hi as int), expires as nat),
{
    proof {
        reveal_strlit("=");
    }
    let ghost pair = v@.subrange(lo as int, hi as int);
    match window_find(v, lo, hi, "=") {
        Some(i) => {
            proof {
                assert(pair.take(i - lo) =~= v@.subrange(lo as int, i as int));
                assert(pair.skip(i - lo + 1) =~= v@.subrange(i + 1, hi as int));
            }
            let (na, nb) = trim_window(v, lo, i, &CharClass::Whitespace);
            if na == nb || has_char(v, i + 1, hi, "\r") || has_char(v, i + 1, hi, "\n")
                || has_char(v, i + 1, hi, "\t") {
                assert(old(out)@ + Seq::<char>::empty() =~= old(out)@);
                return ;
            }
            let (xa, xb) = trim_window(v, i + 1, hi, &CharClass::Whitespace);
            let e = u64_to_decimal(expires);
            push_str(out, ".youtube.com\tTRUE\t/\tTRUE\t");
            push_str(out, e.as_str());
            push_str(out, "\t");
            push_window(out, v, na, nb);
            push_str(out, "\t");
            push_window(out, v, xa, xb);
            push_str(out, "\n");
        },
        None => {
            assert(old(out)@ + Seq::<char>::empty() =~= old(out)@);
        },
    }
}

/// The Netscape `cookies.txt` body that hands the cookies of a `Cookie`
/// header to `yt-dlp`, every cookie valid for `COOKIE_FILE_LIFETIME_SECS`
/// after `now_secs`; `None` for a blank header.
pub fn netscape_cookie_file(cookies: &str, now_secs: u64) -> (r: Option<String>)
    requires
        now_secs + COOKIE_FILE_LIFETIME_SECS <= u64::MAX,
    ensures
        r matches Some(s) ==> spec_netscape_cookie_file(
            cookies@,
            (now_secs + COOKIE_FILE_LIFETIME_SECS) as nat,
        ) == Some(s@),
        r is None ==> spec_netscape_cookie_file(
            cookies@,
            (now_secs + COOKIE_FILE_LIFETIME_SECS) as nat,
        ) is None,
{
    let v = chars_of(cookies);
    assert(v@.subrange(0, v@.len() as int) =~= cookies@);
    let (a, b) = trim_window(&v, 0, v.len(), &CharClass::Whitespace);
    if a == b {
        return None;
    }
    let expires = now_secs + COOKIE_FILE_LIFETIME_SECS;
    let ghost e = expires as nat;
    let pieces = split_windows(&v, 0, v.len(), ';');
    let ghost ps = split_char(cookies@, ';');
    let ghost ts = ps.map_values(|p: Seq<char>| trim(p));
    let ghost pred = nonempty_piece();
    let mut out = String::new();
    push_str(&mut out, "# Netscape HTTP Cookie File\n");
    let ghost head = out@;
    let mut k: usize = 0;
    while k < pieces.len()
        invariant
            0 <= k <= pieces.len(),
            v@ == cookies@,
            e == expires as nat,
            windows_are(v@, pieces@, 0, v@.len() as int, ps),
            ts == ps.map_values(|p: Seq<char>| trim(p)),
            pred == nonempty_piece(),
            out@ == head + concat(ts.take(k as int).filter(pred).map_values(|p: Seq<char>| netscape_line(p, e))),
        decreases pieces.len() - k,
    {
        let (pa, pb) = pieces[k];
        assert(pieces@[k as int] == (pa, pb));
        let (ta, tb) = trim_window(&v, pa, pb, &CharClass::Whitespace);
        let ghost before = ts.take(k as int).filter(pred);
        proof {
            reveal_with_fuel(Seq::<_>::filter, 1);
            assert(ts.take(k + 1).drop_last() =~= ts.take(k as int));
            assert(ts[k as int] == v@.subrange(ta as int, tb as int));
        }
        if ta < tb {
            let ghost after = before.push(ts[k as int]);
            assert(after.map_values(|p: Seq<char>| netscape_line(p, e)).drop_last() =~= before.map_values(|p: Seq<char>| netscape_line(p, e)));
            push_netscape_line(&mut out, &v, ta, tb, expires);
        }
        k = k + 1;
    }
    assert(ts.take(pieces.len() as int) =~= ts);
    Some(out)
}


/// The SHA-1 digest of `data`.
pub uninterp spec fn sha1(data: Seq<u8>) -> Seq<u8>;

/// Calls `ring::digest::digest` with `SHA1_FOR_LEGACY_USE_ONLY`: the result is
/// the SHA-1 digest of the data, 20 bytes long. `ring` panics on input of 2^61
/// bytes or more, which `requires` leaves out.
#[verifier::external_body]
fn sha1_digest(data: &[u8]) -> (r: Vec<u8>)
    requires
        data@.len() < 0x2000_0000_0000_0000,
    ensures
        r@ == sha1(data@),
        r@.len() == 20,
{
    ring::digest::digest(&ring::digest::SHA1_FOR_LEGACY_USE_ONLY, data).as_ref().to_vec()
}

/// The `SAPISID` cookie, or else one of its `__Secure-` variants.
pub open spec fn sapisid(cookies: Seq<char>) -> Option<Seq<char>> {
    match spec_cookie_value(cookies, "SAPISID"@) {
        Some(v) => Some(v),
        None => match spec_cookie_value(cookies, "__Secure-3PAPISID"@) {
            Some(v) => Some(v),
            None => spec_cookie_value(cookies, "__Secure-1PAPISID"@),
        },
    }
}

pub open spec fn spec_youtube_auth_header(cookies: Seq<char>, timestamp: nat) -> Option<Seq<char>> {
    match sapisid(cookies) {
        Some(id) => Some(
            "SAPISIDHASH "@ + decimal(timestamp) + "_"@ + hex_lower(
                sha1(
                    vstd::utf8::encode_utf8(decimal(timestamp) + " "@ + id + " "@ + MUSIC_ORIGIN@),
                ),
            ),
        ),
        None => None,
    }
}

/// The `Authorization` header that YouTube Music accepts for the session's
/// `SAPISID` cookie at `timestamp` (seconds since the Unix epoch).
pub fn youtube_auth_header(cookies: &str, timestamp: u64) -> (r: Option<String>)
    requires
        cookies@.len() < 0x0100_0000_0000_0000,
    ensures
        r matches Some(h) ==> spec_youtube_auth_header(cookies@, timestamp as nat) == Some(h@),
        r is None ==> spec_youtube_auth_header(cookies@, timestamp as nat) is None,
{
    let id = match cookie_value(cookies, "SAPISID") {
        Some(v) => v,
        None => match cookie_value(cookies, "__Secure-3PAPISID") {
            Some(v) => v,
            None => match cookie_value(cookies, "__Secure-1PAPISID") {
                Some(v) => v,
                None => return None,
            },
        },
    };
    let ts = u64_to_decimal(timestamp);
    let mut input = String::new();
    push_str(&mut input, ts.as_str());
    push_str(&mut input, " ");
    push_str(&mut input, id);
    push_str(&mut input, " ");
    push_str(&mut input, MUSIC_ORIGIN);
    let bytes = input.as_str().as_bytes();
    proof {
        reveal_strlit(" ");
        reveal_strlit("https://music.youtube.com");
        assert(MUSIC_ORIGIN@.len() == 25);
        lemma_u64_decimal_len(timestamp);
        lemma_encode_utf8_len(input@);
        assert(input@.len() < 0x0200_0000_0000_0000);
    }
    let hash = sha1_digest(bytes);
    let mut out = String::new();
    push_str(&mut out, "SAPISIDHASH ");
    push_str(&mut out, ts.as_str());
    push_str(&mut out, "_");
    let hex = to_hex_lower(hash.as_slice());
    push_str(&mut out, hex.as_str());
    Some(out)
}

/// The `Authorization` header for the cookies at the clock time `secs` (whole seconds since
/// the Unix epoch): `None` where the clock is set before the epoch.
pub open spec fn auth_header_at(cookies: Seq<char>, secs: Option<u64>) -> Option<Seq<char>> {
    match secs {
        Some(s) => spec_youtube_auth_header(cookies, s as nat),
        None => None,
    }
}

/// The `Authorization` header for the session's cookies as of now: `None` where the
/// cookies have no `SAPISID` or the clock is set before the Unix epoch.
pub fn current_youtube_auth_header(cookies: &str) -> (r: Option<String>)
    requires
        cookies@.len() < 0x0100_0000_0000_0000,
    ensures
        exists|t: std::time::SystemTime|
            crate::models::opt_view(r) == auth_header_at(cookies@, #[trigger] crate::clock::clock_secs(t)),
        sapisid(cookies@) is None ==> r is None,
{
    match crate::clock::unix_secs() {
        Some(t) => youtube_auth_header(cookies, t),
        None => None,
    }
}

/// Some pair at or after `i` has the name of `pairs[i]` and is the last with that name.
proof fn lemma_last_of_same_name(pairs: Seq<Seq<char>>, i: int)
    requires
        0 <= i < pairs.len(),
    ensures
        exists|j: int| i <= j < pairs.len() && last_of_name(pairs, j)
            && #[trigger] spec_cookie_name(pairs[j]) == spec_cookie_name(pairs[i]),
    decreases pairs.len() - i,
{
    if !last_of_name(pairs, i) {
        let j = choose|j: int| i < j < pairs.len() && spec_cookie_name(#[trigger] pairs[j]) == spec_cookie_name(pairs[i]);
        lemma_last_of_same_name(pairs, j);
        let k = choose|k: int| j <= k < pairs.len() && last_of_name(pairs, k)
            && #[trigger] spec_cookie_name(pairs[k]) == spec_cookie_name(pairs[j]);
        assert(i <= k < pairs.len() && last_of_name(pairs, k) && spec_cookie_name(pairs[k]) == spec_cookie_name(pairs[i]));
    } else {
        assert(i <= i < pairs.len() && last_of_name(pairs, i) && spec_cookie_name(pairs[i]) == spec_cookie_name(pairs[i]));
    }
}

/// Joining cookie pairs keeps one pair per cookie name, the last one given: the kept pairs
/// have distinct names, each is the last given pair of its name, and every name given has a
/// kept pair.
pub proof fn lemma_join_keeps_last_of_each_name(pairs: Seq<Seq<char>>)
    ensures
        forall|p: int, q: int| 0 <= p < q < keep_last(pairs).len()
            ==> spec_cookie_name(#[trigger] keep_last(pairs)[p]) != spec_cookie_name(#[trigger] keep_last(pairs)[q]),
        forall|p: int| 0 <= p < keep_last(pairs).len() ==> exists|k: int| 0 <= k < pairs.len()
            && last_of_name(pairs, k) && #[trigger] keep_last(pairs)[p] == pairs[k],
        forall|i: int| 0 <= i < pairs.len() ==> exists|p: int| 0 <= p < keep_last(pairs).len()
            && spec_cookie_name(#[trigger] keep_last(pairs)[p]) == spec_cookie_name(#[trigger] pairs[i]),
{
    let keep = last_of_name_at(pairs);
    let n = pairs.len() as int;
    let kl = keep_last(pairs);
    lemma_select_index(pairs, keep, n);
    assert forall|p: int, q: int| 0 <= p < q < kl.len()
        implies spec_cookie_name(#[trigger] kl[p]) != spec_cookie_name(#[trigger] kl[q]) by {
        let a = select_index(pairs, keep, n, p);
        let b = select_index(pairs, keep, n, q);
        assert(a < b && last_of_name(pairs, a));
        assert(spec_cookie_name(pairs[b]) != spec_cookie_name(pairs[a]));
    }
    assert forall|p: int| 0 <= p < kl.len() implies exists|k: int| 0 <= k < pairs.len()
        && last_of_name(pairs, k) && #[trigger] kl[p] == pairs[k] by {
        let a = select_index(pairs, keep, n, p);
        assert(keep(a));
    }
    assert forall|i: int| 0 <= i < pairs.len() implies exists|p: int| 0 <= p < kl.len()
        && spec_cookie_name(#[trigger] kl[p]) == spec_cookie_name(#[trigger] pairs[i]) by {
        lemma_last_of_same_name(pairs, i);
        let j = choose|j: int| i <= j < pairs.len() && last_of_name(pairs, j)
            && #[trigger] spec_cookie_name(pairs[j]) == spec_cookie_name(pairs[i]);
        lemma_select_contains(pairs, keep, n, pairs[j]);
        assert(keep(j));
        assert(kl.contains(pairs[j]));
        let p = choose|p: int| 0 <= p < kl.len() && kl[p] == pairs[j];
        assert(spec_cookie_name(kl[p]) == spec_cookie_name(pairs[i]));
    }
}

} // verus!
