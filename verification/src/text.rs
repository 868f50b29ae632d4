//! Character-level text handling: the model of the string operations that
//! the rest of the library is specified with, and their executable forms.
use vstd::prelude::*;

verus! {

/// A class of characters that trimming and scanning work with.
pub enum CharClass {
    /// Unicode `White_Space`, the class that `str::trim` removes.
    Whitespace,
    /// Exactly the given character.
    Is(char),
    /// ASCII letters, ASCII digits, `_` and `-`.
    IdChar,
    /// ASCII letters, ASCII digits, `_`, `-` and `%`.
    ParamChar,
    /// ASCII digits.
    Digit,
    /// ASCII digits and `:`.
    DigitOrColon,
    /// Every character outside Unicode `White_Space`.
    NotWhitespace,
}

pub open spec fn is_ws(c: char) -> bool {
    ||| ('\u{9}' <= c && c <= '\u{d}')
    ||| c == ' '
    ||| c == '\u{85}'
    ||| c == '\u{a0}'
    ||| c == '\u{1680}'
    ||| ('\u{2000}' <= c && c <= '\u{200a}')
    ||| c == '\u{2028}'
    ||| c == '\u{2029}'
    ||| c == '\u{202f}'
    ||| c == '\u{205f}'
    ||| c == '\u{3000}'
}

pub open spec fn is_ascii_digit(c: char) -> bool {
    '0' <= c && c <= '9'
}

pub open spec fn is_ascii_alpha(c: char) -> bool {
    ('a' <= c && c <= 'z') || ('A' <= c && c <= 'Z')
}

pub open spec fn is_ascii_alnum(c: char) -> bool {
    is_ascii_alpha(c) || is_ascii_digit(c)
}

pub open spec fn is_id_char(c: char) -> bool {
    is_ascii_alnum(c) || c == '_' || c == '-'
}

impl CharClass {
    pub open spec fn holds(self, c: char) -> bool {
        match self {
            CharClass::Whitespace => is_ws(c),
            CharClass::Is(x) => c == x,
            CharClass::IdChar => is_id_char(c),
            CharClass::ParamChar => is_id_char(c) || c == '%',
            CharClass::Digit => is_ascii_digit(c),
            CharClass::DigitOrColon => is_ascii_digit(c) || c == ':',
            CharClass::NotWhitespace => !is_ws(c),
        }
    }

    pub fn test(&self, c: char) -> (r: bool)
        ensures
            r == self.holds(c),
    {
        match self {
            CharClass::Whitespace => {
                ('\u{9}' <= c && c <= '\u{d}') || c == ' ' || c == '\u{85}' || c == '\u{a0}'
                    || c == '\u{1680}' || ('\u{2000}' <= c && c <= '\u{200a}') || c == '\u{2028}'
                    || c == '\u{2029}' || c == '\u{202f}' || c == '\u{205f}' || c == '\u{3000}'
            },
            CharClass::Is(x) => c == *x,
            CharClass::IdChar => is_id_char_exec(c),
            CharClass::ParamChar => is_id_char_exec(c) || c == '%',
            CharClass::Digit => '0' <= c && c <= '9',
            CharClass::DigitOrColon => ('0' <= c && c <= '9') || c == ':',
            CharClass::NotWhitespace => !(('\u{9}' <= c && c <= '\u{d}') || c == ' ' || c == '\u{85}'
                || c == '\u{a0}' || c == '\u{1680}' || ('\u{2000}' <= c && c <= '\u{200a}')
                || c == '\u{2028}' || c == '\u{2029}' || c == '\u{202f}' || c == '\u{205f}'
                || c == '\u{3000}'),
        }
    }
}

pub fn is_id_char_exec(c: char) -> (r: bool)
    ensures
        r == is_id_char(c),
{
    ('a' <= c && c <= 'z') || ('A' <= c && c <= 'Z') || ('0' <= c && c <= '9') || c == '_'
        || c == '-'
}

/// Number of leading characters of `s` in class `k`.
pub open spec fn lead(s: Seq<char>, k: CharClass) -> nat
    decreases s.len(),
{
    if s.len() == 0 {
        0
    } else if k.holds(s[0]) {
        1 + lead(s.drop_first(), k)
    } else {
        0
    }
}

/// Number of trailing characters of `s` in class `k`.
pub open spec fn trail(s: Seq<char>, k: CharClass) -> nat
    decreases s.len(),
{
    if s.len() == 0 {
        0
    } else if k.holds(s.last()) {
        1 + trail(s.drop_last(), k)
    } else {
        0
    }
}

pub open spec fn trim_start_by(s: Seq<char>, k: CharClass) -> Seq<char> {
    s.skip(lead(s, k) as int)
}

pub open spec fn trim_end_by(s: Seq<char>, k: CharClass) -> Seq<char> {
    s.take(s.len() - trail(s, k))
}

pub open spec fn trim_by(s: Seq<char>, k: CharClass) -> Seq<char> {
    trim_end_by(trim_start_by(s, k), k)
}

/// `str::trim`.
pub open spec fn trim(s: Seq<char>) -> Seq<char> {
    trim_by(s, CharClass::Whitespace)
}

pub open spec fn all_in(s: Seq<char>, k: CharClass) -> bool {
    forall|i: int| 0 <= i < s.len() ==> k.holds(#[trigger] s[i])
}

pub proof fn lemma_lead(s: Seq<char>, k: CharClass, n: int)
    requires
        0 <= n <= s.len(),
        forall|j: int| 0 <= j < n ==> k.holds(#[trigger] s[j]),
        n == s.len() || !k.holds(s[n]),
    ensures
        lead(s, k) == n,
    decreases n,
{
    if n > 0 {
        let t = s.drop_first();
        assert forall|j: int| 0 <= j < n - 1 implies k.holds(#[trigger] t[j]) by {
            assert(t[j] == s[j + 1]);
        }
        if n - 1 < t.len() {
            assert(t[n - 1] == s[n]);
        }
        lemma_lead(t, k, n - 1);
    }
}

/// The leading run of class `k` ends at a character outside `k`, or at the end.
pub proof fn lemma_lead_stops(s: Seq<char>, k: CharClass)
    ensures
        lead(s, k) <= s.len(),
        lead(s, k) < s.len() ==> !k.holds(s[lead(s, k) as int]),
        forall|j: int| 0 <= j < lead(s, k) ==> k.holds(#[trigger] s[j]),
    decreases s.len(),
{
    if s.len() > 0 && k.holds(s[0]) {
        let t = s.drop_first();
        lemma_lead_stops(t, k);
        assert forall|j: int| 0 <= j < lead(s, k) implies k.holds(#[trigger] s[j]) by {
            if j > 0 {
                assert(s[j] == t[j - 1]);
            }
        }
        if lead(s, k) < s.len() {
            assert(s[lead(s, k) as int] == t[lead(t, k) as int]);
        }
    }
}

pub proof fn lemma_trail(s: Seq<char>, k: CharClass, n: int)
    requires
        0 <= n <= s.len(),
        forall|j: int| s.len() - n <= j < s.len() ==> k.holds(#[trigger] s[j]),
        n == s.len() || !k.holds(s[s.len() - n - 1]),
    ensures
        trail(s, k) == n,
    decreases n,
{
    if n > 0 {
        let t = s.drop_last();
        assert forall|j: int| t.len() - (n - 1) <= j < t.len() implies k.holds(#[trigger] t[j]) by {
            assert(t[j] == s[j]);
        }
        if n - 1 < t.len() {
            assert(t[t.len() - (n - 1) - 1] == s[s.len() - n - 1]);
        }
        lemma_trail(t, k, n - 1);
    }
}

/// Count of leading characters in class `k` within `v[lo..hi]`.
pub fn lead_count(v: &Vec<char>, lo: usize, hi: usize, k: &CharClass) -> (n: usize)
    requires
        lo <= hi <= v.len(),
    ensures
        n == lead(v@.subrange(lo as int, hi as int), *k),
        lo + n <= hi,
{
    let mut i = lo;
    while i < hi && k.test(v[i])
        invariant
            lo <= i <= hi <= v.len(),
            forall|j: int| lo <= j < i ==> k.holds(#[trigger] v@[j]),
        decreases hi - i,
    {
        i = i + 1;
    }
    proof {
        let s = v@.subrange(lo as int, hi as int);
        assert forall|j: int| 0 <= j < i - lo implies k.holds(#[trigger] s[j]) by {
            assert(s[j] == v@[lo + j]);
        }
        lemma_lead(s, *k, i - lo);
    }
    i - lo
}

/// Count of trailing characters in class `k` within `v[lo..hi]`.
pub fn trail_count(v: &Vec<char>, lo: usize, hi: usize, k: &CharClass) -> (n: usize)
    requires
        lo <= hi <= v.len(),
    ensures
        n == trail(v@.subrange(lo as int, hi as int), *k),
        lo + n <= hi,
{
    let mut i = hi;
    while i > lo && k.test(v[i - 1])
        invariant
            lo <= i <= hi <= v.len(),
            forall|j: int| i <= j < hi ==> k.holds(#[trigger] v@[j]),
        decreases i - lo,
    {
        i = i - 1;
    }
    proof {
        let s = v@.subrange(lo as int, hi as int);
        assert forall|j: int| s.len() - (hi - i) <= j < s.len() implies k.holds(
            #[trigger] s[j],
        ) by {
            assert(s[j] == v@[lo + j]);
        }
        if hi - i < s.len() {
            assert(s[s.len() - (hi - i) - 1] == v@[i - 1]);
        }
        lemma_trail(s, *k, hi - i);
    }
    hi - i
}

/// The window `v[a..b]` that trimming class `k` from both ends of `v[lo..hi]` leaves.
pub fn trim_window(v: &Vec<char>, lo: usize, hi: usize, k: &CharClass) -> (r: (usize, usize))
    requires
        lo <= hi <= v.len(),
    ensures
        lo <= r.0 <= r.1 <= hi,
        v@.subrange(r.0 as int, r.1 as int) == trim_by(v@.subrange(lo as int, hi as int), *k),
{
    let n = lead_count(v, lo, hi, k);
    let a = lo + n;
    let m = trail_count(v, a, hi, k);
    proof {
        let s = v@.subrange(lo as int, hi as int);
        assert(trim_start_by(s, *k) =~= v@.subrange(a as int, hi as int));
        assert(trim_by(s, *k) =~= v@.subrange(a as int, (hi - m) as int));
    }
    (a, hi - m)
}

pub fn all_match(v: &Vec<char>, lo: usize, hi: usize, k: &CharClass) -> (r: bool)
    requires
        lo <= hi <= v.len(),
    ensures
        r == all_in(v@.subrange(lo as int, hi as int), *k),
{
    let mut i = lo;
    while i < hi
        invariant
            lo <= i <= hi <= v.len(),
            forall|j: int| lo <= j < i ==> k.holds(#[trigger] v@[j]),
        decreases hi - i,
    {
        if !k.test(v[i]) {
            proof {
                let s = v@.subrange(lo as int, hi as int);
                assert(s[i - lo] == v@[i as int]);
            }
            return false;
        }
        i = i + 1;
    }
    proof {
        let s = v@.subrange(lo as int, hi as int);
        assert forall|j: int| 0 <= j < s.len() implies k.holds(#[trigger] s[j]) by {
            assert(s[j] == v@[lo + j]);
        }
    }
    true
}

/// The characters of `s`.
pub fn chars_of(s: &str) -> (v: Vec<char>)
    ensures
        v@ == s@,
{
    broadcast use vstd::string::axiom_spec_iter;

    let mut v: Vec<char> = Vec::new();
    for c in it: s.chars()
        invariant
            v@ == it.seq().take(it.index() as int),
    {
        v.push(c);
    }
    assert(v@ =~= s@);
    v
}

/// `String::push`.
#[verifier::external_body]
pub(crate) fn push_char(s: &mut String, c: char)
    ensures
        final(s)@ == old(s)@.push(c),
{
    s.push(c);
}

/// A `String` holding `v[lo..hi]`.
pub fn string_of(v: &Vec<char>, lo: usize, hi: usize) -> (s: String)
    requires
        lo <= hi <= v.len(),
    ensures
        s@ == v@.subrange(lo as int, hi as int),
{
    let mut s = String::new();
    let mut i = lo;
    while i < hi
        invariant
            lo <= i <= hi <= v.len(),
            s@ == v@.subrange(lo as int, i as int),
        decreases hi - i,
    {
        push_char(&mut s, v[i]);
        i = i + 1;
        assert(s@ =~= v@.subrange(lo as int, i as int));
    }
    s
}

/// Appends `v[lo..hi]` to `out`.
pub fn push_window(out: &mut String, v: &Vec<char>, lo: usize, hi: usize)
    requires
        lo <= hi <= v.len(),
    ensures
        final(out)@ == old(out)@ + v@.subrange(lo as int, hi as int),
{
    let mut i = lo;
    while i < hi
        invariant
            lo <= i <= hi <= v.len(),
            out@ == old(out)@ + v@.subrange(lo as int, i as int),
        decreases hi - i,
    {
        push_char(out, v[i]);
        i = i + 1;
        assert(out@ =~= old(out)@ + v@.subrange(lo as int, i as int));
    }
}

/// Appends `s` to `out`.
pub fn push_str(out: &mut String, s: &str)
    ensures
        final(out)@ == old(out)@ + s@,
{
    let v = chars_of(s);
    push_window(out, &v, 0, v.len());
    assert(v@.subrange(0, v@.len() as int) =~= v@);
}

/// `trim` of `s` as a new `String`.
pub fn trimmed(s: &str) -> (r: String)
    ensures
        r@ == trim(s@),
{
    let v = chars_of(s);
    let (a, b) = trim_window(&v, 0, v.len(), &CharClass::Whitespace);
    assert(v@.subrange(0, v@.len() as int) =~= v@);
    string_of(&v, a, b)
}


pub open spec fn starts_with(s: Seq<char>, p: Seq<char>) -> bool {
    p.len() <= s.len() && s.take(p.len() as int) == p
}

pub open spec fn ends_with(s: Seq<char>, p: Seq<char>) -> bool {
    p.len() <= s.len() && s.skip(s.len() - p.len()) == p
}

/// `str::strip_prefix`.
pub open spec fn strip_prefix(s: Seq<char>, p: Seq<char>) -> Option<Seq<char>> {
    if starts_with(s, p) {
        Some(s.skip(p.len() as int))
    } else {
        None
    }
}

/// `p` occurs in `s` at index `i`.
pub open spec fn occurs_at(s: Seq<char>, p: Seq<char>, i: int) -> bool {
    0 <= i && i + p.len() <= s.len() && s.subrange(i, i + p.len()) == p
}

/// Index of the first occurrence of `p` in `s` (`str::find`).
pub open spec fn find(s: Seq<char>, p: Seq<char>) -> Option<int>
    decreases s.len(),
{
    if s.len() < p.len() {
        None
    } else if s.len() == 0 {
        Some(0)
    } else {
        match find(s.drop_last(), p) {
            Some(i) => Some(i),
            None => if occurs_at(s, p, s.len() - p.len()) {
                Some(s.len() - p.len())
            } else {
                None
            },
        }
    }
}

/// Index of the last occurrence of `p` in `s` (`str::rfind`).
pub open spec fn rfind(s: Seq<char>, p: Seq<char>) -> Option<int>
    decreases s.len(),
{
    if s.len() < p.len() {
        None
    } else if occurs_at(s, p, s.len() - p.len()) {
        Some(s.len() - p.len())
    } else if s.len() == 0 {
        None
    } else {
        rfind(s.drop_last(), p)
    }
}

pub open spec fn contains(s: Seq<char>, p: Seq<char>) -> bool {
    find(s, p) is Some
}

proof fn lemma_occurs_drop_last(s: Seq<char>, p: Seq<char>, i: int)
    requires
        s.len() > 0,
        i + p.len() <= s.len() - 1,
    ensures
        occurs_at(s, p, i) == occurs_at(s.drop_last(), p, i),
{
    if 0 <= i {
        assert(s.drop_last().subrange(i, i + p.len()) =~= s.subrange(i, i + p.len()));
    }
}

/// `find` gives the least index at which `p` occurs.
pub proof fn lemma_find(s: Seq<char>, p: Seq<char>)
    ensures
        match find(s, p) {
            Some(i) => occurs_at(s, p, i) && forall|j: int| 0 <= j < i ==> !occurs_at(s, p, j),
            None => forall|j: int| !occurs_at(s, p, j),
        },
    decreases s.len(),
{
    if s.len() < p.len() {
    } else if s.len() == 0 {
        assert(s.subrange(0, 0) =~= p);
    } else {
        lemma_find(s.drop_last(), p);
        assert forall|j: int| j + p.len() <= s.len() - 1 implies occurs_at(s, p, j) == occurs_at(
            s.drop_last(),
            p,
            j,
        ) by {
            lemma_occurs_drop_last(s, p, j);
        }
    }
}

/// `rfind` gives the greatest index at which `p` occurs.
pub proof fn lemma_rfind(s: Seq<char>, p: Seq<char>)
    ensures
        match rfind(s, p) {
            Some(i) => occurs_at(s, p, i) && forall|j: int| i < j ==> !occurs_at(s, p, j),
            None => forall|j: int| !occurs_at(s, p, j),
        },
    decreases s.len(),
{
    if s.len() < p.len() {
    } else if occurs_at(s, p, s.len() - p.len()) {
    } else if s.len() == 0 {
    } else {
        lemma_rfind(s.drop_last(), p);
        assert forall|j: int| j + p.len() <= s.len() - 1 implies occurs_at(s, p, j) == occurs_at(
            s.drop_last(),
            p,
            j,
        ) by {
            lemma_occurs_drop_last(s, p, j);
        }
    }
}

/// Pieces of `s` between occurrences of `c` (`str::split` on a character).
pub open spec fn split_char(s: Seq<char>, c: char) -> Seq<Seq<char>>
    decreases s.len(),
{
    if s.len() == 0 {
        seq![Seq::<char>::empty()]
    } else {
        let prev = split_char(s.drop_last(), c);
        if s.last() == c {
            prev.push(Seq::<char>::empty())
        } else {
            prev.update(prev.len() - 1, prev.last().push(s.last()))
        }
    }
}

pub proof fn lemma_split_char_len(s: Seq<char>, c: char)
    ensures
        split_char(s, c).len() >= 1,
    decreases s.len(),
{
    if s.len() > 0 {
        lemma_split_char_len(s.drop_last(), c);
    }
}

/// `str::split_once` on a pattern.
pub open spec fn split_once(s: Seq<char>, p: Seq<char>) -> Option<(Seq<char>, Seq<char>)> {
    match find(s, p) {
        Some(i) => Some((s.take(i), s.skip(i + p.len()))),
        None => None,
    }
}

/// `str::rsplit_once` on a pattern.
pub open spec fn rsplit_once(s: Seq<char>, p: Seq<char>) -> Option<(Seq<char>, Seq<char>)> {
    match rfind(s, p) {
        Some(i) => Some((s.take(i), s.skip(i + p.len()))),
        None => None,
    }
}

/// `str::replace` of a non-empty pattern.
pub open spec fn replace(s: Seq<char>, p: Seq<char>, with: Seq<char>) -> Seq<char>
    decreases s.len(),
{
    if p.len() == 0 {
        s
    } else {
        match find(s, p) {
            Some(i) => {
                if 0 <= i && i + p.len() <= s.len() {
                    s.take(i) + with + replace(s.skip(i + p.len()), p, with)
                } else {
                    s
                }
            },
            None => s,
        }
    }
}

/// The pieces joined with `sep` between them (`[..].join(sep)`).
pub open spec fn join(parts: Seq<Seq<char>>, sep: Seq<char>) -> Seq<char>
    decreases parts.len(),
{
    if parts.len() == 0 {
        Seq::empty()
    } else if parts.len() == 1 {
        parts[0]
    } else {
        join(parts.drop_last(), sep) + sep + parts.last()
    }
}

pub open spec fn ascii_lower_char(c: char) -> char {
    if 'A' <= c && c <= 'Z' {
        ((c as u8) + 32) as char
    } else {
        c
    }
}

/// `str::to_ascii_lowercase`.
pub open spec fn ascii_lower(s: Seq<char>) -> Seq<char> {
    s.map_values(|c: char| ascii_lower_char(c))
}

/// `str::eq_ignore_ascii_case`.
pub open spec fn eq_ignore_ascii_case(a: Seq<char>, b: Seq<char>) -> bool {
    ascii_lower(a) == ascii_lower(b)
}

pub fn ascii_lower_char_exec(c: char) -> (r: char)
    ensures
        r == ascii_lower_char(c),
{
    if 'A' <= c && c <= 'Z' {
        ((c as u8) + 32) as char
    } else {
        c
    }
}

/// `v[lo..hi]` equals `p`.
pub fn window_eq(v: &Vec<char>, lo: usize, hi: usize, p: &Vec<char>) -> (r: bool)
    requires
        lo <= hi <= v.len(),
    ensures
        r == (v@.subrange(lo as int, hi as int) == p@),
{
    if hi - lo != p.len() {
        return false;
    }
    let mut i: usize = 0;
    while i < p.len()
        invariant
            lo <= hi <= v.len(),
            hi - lo == p.len(),
            0 <= i <= p.len(),
            forall|j: int| 0 <= j < i ==> v@[lo + j] == p@[j],
        decreases p.len() - i,
    {
        if v[lo + i] != p[i] {
            assert(v@.subrange(lo as int, hi as int)[i as int] != p@[i as int]);
            return false;
        }
        i = i + 1;
    }
    assert(v@.subrange(lo as int, hi as int) =~= p@);
    true
}

/// `v[lo..hi]` equals `p`, ignoring ASCII case.
pub fn window_eq_ignore_ascii_case(v: &Vec<char>, lo: usize, hi: usize, p: &Vec<char>) -> (r:
    bool)
    requires
        lo <= hi <= v.len(),
    ensures
        r == eq_ignore_ascii_case(v@.subrange(lo as int, hi as int), p@),
{
    let ghost s = v@.subrange(lo as int, hi as int);
    if hi - lo != p.len() {
        assert(ascii_lower(s).len() != ascii_lower(p@).len());
        return false;
    }
    let mut i: usize = 0;
    while i < p.len()
        invariant
            lo <= hi <= v.len(),
            hi - lo == p.len(),
            s == v@.subrange(lo as int, hi as int),
            0 <= i <= p.len(),
            forall|j: int|
                0 <= j < i ==> ascii_lower_char(v@[lo + j]) == ascii_lower_char(p@[j]),
        decreases p.len() - i,
    {
        if ascii_lower_char_exec(v[lo + i]) != ascii_lower_char_exec(p[i]) {
            assert(ascii_lower(s)[i as int] != ascii_lower(p@)[i as int]);
            return false;
        }
        i = i + 1;
    }
    assert(ascii_lower(s) =~= ascii_lower(p@));
    true
}

/// Whether `p` occurs in `v[lo..hi]` at absolute index `at`.
pub fn occurs_at_exec(v: &Vec<char>, lo: usize, hi: usize, p: &Vec<char>, at: usize) -> (r: bool)
    requires
        lo <= at,
        lo <= hi <= v.len(),
    ensures
        r == occurs_at(v@.subrange(lo as int, hi as int), p@, at - lo),
{
    if at > hi || hi - at < p.len() {
        return false;
    }
    let r = window_eq(v, at, at + p.len(), p);
    assert(v@.subrange(lo as int, hi as int).subrange(at - lo, at - lo + p.len()) =~= v@.subrange(
        at as int,
        at + p.len(),
    ));
    r
}

/// `v[lo..hi]` starts with `p`.
pub fn has_prefix(v: &Vec<char>, lo: usize, hi: usize, p: &Vec<char>) -> (r: bool)
    requires
        lo <= hi <= v.len(),
    ensures
        r == starts_with(v@.subrange(lo as int, hi as int), p@),
{
    let r = occurs_at_exec(v, lo, hi, p, lo);
    assert(v@.subrange(lo as int, hi as int).take(p@.len() as int) =~= v@.subrange(
        lo as int,
        hi as int,
    ).subrange(0, p@.len() as int));
    r
}

/// `v[lo..hi]` ends with `p`.
pub fn has_suffix(v: &Vec<char>, lo: usize, hi: usize, p: &Vec<char>) -> (r: bool)
    requires
        lo <= hi <= v.len(),
    ensures
        r == ends_with(v@.subrange(lo as int, hi as int), p@),
{
    if hi - lo < p.len() {
        return false;
    }
    let r = occurs_at_exec(v, lo, hi, p, hi - p.len());
    let ghost s = v@.subrange(lo as int, hi as int);
    assert(s.skip(s.len() - p@.len()) =~= s.subrange(s.len() - p@.len(), s.len() as int));
    r
}

/// First absolute index at which `p` occurs in `v[lo..hi]`.
pub fn find_in(v: &Vec<char>, lo: usize, hi: usize, p: &Vec<char>) -> (r: Option<usize>)
    requires
        lo <= hi <= v.len(),
    ensures
        match r {
            Some(i) => lo <= i && i + p@.len() <= hi && find(v@.subrange(lo as int, hi as int), p@)
                == Some(i - lo),
            None => find(v@.subrange(lo as int, hi as int), p@) is None,
        },
{
    let ghost s = v@.subrange(lo as int, hi as int);
    proof {
        lemma_find(s, p@);
    }
    if hi - lo < p.len() {
        return None;
    }
    let last = hi - p.len();
    let mut i = lo;
    loop
        invariant
            lo <= i <= last,
            last == hi - p.len(),
            p.len() <= hi - lo,
            lo <= hi <= v.len(),
            s == v@.subrange(lo as int, hi as int),
            forall|j: int| 0 <= j < i - lo ==> !occurs_at(s, p@, j),
        decreases last - i,
    {
        if occurs_at_exec(v, lo, hi, p, i) {
            proof {
                lemma_find(s, p@);
            }
            return Some(i);
        }
        if i == last {
            proof {
                lemma_find(s, p@);
            }
            return None;
        }
        i = i + 1;
    }
}

/// Last absolute index at which `p` occurs in `v[lo..hi]`.
pub fn rfind_in(v: &Vec<char>, lo: usize, hi: usize, p: &Vec<char>) -> (r: Option<usize>)
    requires
        lo <= hi <= v.len(),
    ensures
        match r {
            Some(i) => lo <= i && i + p@.len() <= hi && rfind(v@.subrange(lo as int, hi as int), p@)
                == Some(i - lo),
            None => rfind(v@.subrange(lo as int, hi as int), p@) is None,
        },
{
    let ghost s = v@.subrange(lo as int, hi as int);
    proof {
        lemma_rfind(s, p@);
    }
    if hi - lo < p.len() {
        return None;
    }
    let mut i = hi - p.len();
    loop
        invariant
            lo <= i <= hi - p.len(),
            p.len() <= hi - lo,
            lo <= hi <= v.len(),
            s == v@.subrange(lo as int, hi as int),
            forall|j: int| i - lo < j ==> !occurs_at(s, p@, j),
        decreases i,
    {
        if occurs_at_exec(v, lo, hi, p, i) {
            proof {
                lemma_rfind(s, p@);
            }
            return Some(i);
        }
        if i == lo {
            proof {
                lemma_rfind(s, p@);
            }
            return None;
        }
        i = i - 1;
    }
}


/// Windows `v[a..b]` over the pieces that `split_char` gives of `v[lo..hi]`.
pub open spec fn windows_are(v: Seq<char>, w: Seq<(usize, usize)>, lo: int, hi: int, pieces: Seq<Seq<char>>) -> bool {
    &&& w.len() == pieces.len()
    &&& forall|k: int|
        #![trigger w[k]]
        0 <= k < w.len() ==> lo <= w[k].0 <= w[k].1 <= hi && v.subrange(w[k].0 as int, w[k].1 as int)
            == pieces[k]
}

/// `v[lo..hi].split(c)`, as windows into `v`.
pub fn split_windows(v: &Vec<char>, lo: usize, hi: usize, c: char) -> (w: Vec<(usize, usize)>)
    requires
        lo <= hi <= v.len(),
    ensures
        windows_are(v@, w@, lo as int, hi as int, split_char(v@.subrange(lo as int, hi as int), c)),
{
    let mut w: Vec<(usize, usize)> = Vec::new();
    let mut start = lo;
    let mut i = lo;
    assert(v@.subrange(lo as int, lo as int) =~= Seq::<char>::empty());
    while i < hi
        invariant
            lo <= start <= i <= hi <= v.len(),
            windows_are(v@, w@, lo as int, hi as int, split_char(v@.subrange(lo as int, i as int), c).drop_last()),
            split_char(v@.subrange(lo as int, i as int), c).len() >= 1,
            split_char(v@.subrange(lo as int, i as int), c).last() == v@.subrange(start as int, i as int),
        decreases hi - i,
    {
        let ghost prev = split_char(v@.subrange(lo as int, i as int), c);
        let ghost next_s = v@.subrange(lo as int, i + 1);
        assert(next_s.drop_last() =~= v@.subrange(lo as int, i as int));
        if v[i] == c {
            w.push((start, i));
            start = i + 1;
            proof {
                let cur = split_char(next_s, c);
                assert(cur == prev.push(Seq::<char>::empty()));
                assert(cur.drop_last() =~= prev);
                assert(prev =~= prev.drop_last().push(prev.last()));
                assert(v@.subrange(start as int, i + 1) =~= Seq::<char>::empty());
            }
        } else {
            proof {
                let cur = split_char(next_s, c);
                assert(cur == prev.update(prev.len() - 1, prev.last().push(v@[i as int])));
                assert(cur.drop_last() =~= prev.drop_last());
                assert(v@.subrange(start as int, i + 1) =~= v@.subrange(start as int, i as int).push(v@[i as int]));
            }
        }
        i = i + 1;
    }
    w.push((start, hi));
    proof {
        let fin = split_char(v@.subrange(lo as int, hi as int), c);
        assert(fin =~= fin.drop_last().push(fin.last()));
    }
    w
}

/// Appends `v[lo..hi]` to `out`.
pub fn extend_window(out: &mut Vec<char>, v: &Vec<char>, lo: usize, hi: usize)
    requires
        lo <= hi <= v.len(),
    ensures
        final(out)@ == old(out)@ + v@.subrange(lo as int, hi as int),
{
    let mut i = lo;
    while i < hi
        invariant
            lo <= i <= hi <= v.len(),
            out@ == old(out)@ + v@.subrange(lo as int, i as int),
        decreases hi - i,
    {
        out.push(v[i]);
        i = i + 1;
        assert(out@ =~= old(out)@ + v@.subrange(lo as int, i as int));
    }
}

/// `str::replace` of the non-empty pattern `p` in `v[lo..hi]`.
pub fn replace_window(v: &Vec<char>, lo: usize, hi: usize, p: &Vec<char>, with: &Vec<char>) -> (r: Vec<char>)
    requires
        lo <= hi <= v.len(),
        p@.len() > 0,
    ensures
        r@ == replace(v@.subrange(lo as int, hi as int), p@, with@),
{
    let mut out: Vec<char> = Vec::new();
    let mut i = lo;
    loop
        invariant
            lo <= i <= hi <= v.len(),
            p@.len() > 0,
            replace(v@.subrange(lo as int, hi as int), p@, with@) == out@ + replace(v@.subrange(i as int, hi as int), p@, with@),
        decreases hi - i,
    {
        let ghost rest = v@.subrange(i as int, hi as int);
        match find_in(v, i, hi, p) {
            Some(k) => {
                proof {
                    lemma_find(rest, p@);
                    assert(rest.take(k - i) =~= v@.subrange(i as int, k as int));
                    assert(rest.skip(k - i + p@.len()) =~= v@.subrange(k + p@.len(), hi as int));
                }
                extend_window(&mut out, v, i, k);
                extend_window(&mut out, with, 0, with.len());
                assert(with@.subrange(0, with@.len() as int) =~= with@);
                i = k + p.len();
            },
            None => {
                extend_window(&mut out, v, i, hi);
                return out;
            },
        }
    }
}

/// Replaces each `'\r'` and `'\n'` with `"; "`.
pub open spec fn replace_line_breaks(s: Seq<char>) -> Seq<char>
    decreases s.len(),
{
    if s.len() == 0 {
        s
    } else {
        replace_line_breaks(s.drop_last()) + if s.last() == '\r' || s.last() == '\n' {
            seq![';', ' ']
        } else {
            seq![s.last()]
        }
    }
}

pub fn replace_line_breaks_window(v: &Vec<char>, lo: usize, hi: usize) -> (r: Vec<char>)
    requires
        lo <= hi <= v.len(),
    ensures
        r@ == replace_line_breaks(v@.subrange(lo as int, hi as int)),
{
    let mut out: Vec<char> = Vec::new();
    let mut i = lo;
    assert(v@.subrange(lo as int, lo as int) =~= Seq::<char>::empty());
    while i < hi
        invariant
            lo <= i <= hi <= v.len(),
            out@ == replace_line_breaks(v@.subrange(lo as int, i as int)),
        decreases hi - i,
    {
        assert(v@.subrange(lo as int, i + 1).drop_last() =~= v@.subrange(lo as int, i as int));
        if v[i] == '\r' || v[i] == '\n' {
            out.push(';');
            out.push(' ');
        } else {
            out.push(v[i]);
        }
        i = i + 1;
        assert(out@ =~= replace_line_breaks(v@.subrange(lo as int, i as int)));
    }
    out
}

/// `parts.join(sep)`.
pub fn join_strings(parts: &Vec<String>, sep: &str) -> (r: String)
    ensures
        r@ == join(parts@.map_values(|x: String| x@), sep@),
{
    let ghost views = parts@.map_values(|x: String| x@);
    let mut out = String::new();
    let mut i: usize = 0;
    while i < parts.len()
        invariant
            0 <= i <= parts.len(),
            views == parts@.map_values(|x: String| x@),
            out@ == join(views.take(i as int), sep@),
        decreases parts.len() - i,
    {
        assert(views.take(i + 1).drop_last() =~= views.take(i as int));
        if i > 0 {
            push_str(&mut out, sep);
        }
        push_str(&mut out, parts[i].as_str());
        i = i + 1;
        assert(out@ =~= join(views.take(i as int), sep@));
    }
    assert(views.take(parts.len() as int) =~= views);
    out
}


/// The elements `s[i]`, `i < n`, for which `keep(i)` holds, in order.
pub open spec fn select<A>(s: Seq<A>, keep: spec_fn(int) -> bool, n: int) -> Seq<A>
    decreases n,
{
    if n <= 0 {
        Seq::empty()
    } else {
        let prev = select(s, keep, n - 1);
        if keep(n - 1) {
            prev.push(s[n - 1])
        } else {
            prev
        }
    }
}

/// Where the `p`-th element that `select` keeps stands in `s`.
pub open spec fn select_index<A>(s: Seq<A>, keep: spec_fn(int) -> bool, n: int, p: int) -> int
    decreases n,
{
    if n <= 0 {
        0
    } else if keep(n - 1) && p == select(s, keep, n - 1).len() {
        n - 1
    } else {
        select_index(s, keep, n - 1, p)
    }
}

/// The elements that `select` keeps come from `s`, where `keep` holds, in their order.
pub proof fn lemma_select_index<A>(s: Seq<A>, keep: spec_fn(int) -> bool, n: int)
    requires
        0 <= n <= s.len(),
    ensures
        select(s, keep, n).len() <= n,
        forall|p: int| 0 <= p < select(s, keep, n).len() ==> {
            let k = #[trigger] select_index(s, keep, n, p);
            0 <= k < n && keep(k) && select(s, keep, n)[p] == s[k]
        },
        forall|p: int, q: int| 0 <= p < q < select(s, keep, n).len() ==>
            #[trigger] select_index(s, keep, n, p) < #[trigger] select_index(s, keep, n, q),
    decreases n,
{
    if n > 0 {
        lemma_select_index(s, keep, n - 1);
        let prev = select(s, keep, n - 1);
        assert forall|p: int| 0 <= p < select(s, keep, n).len() implies {
            let k = #[trigger] select_index(s, keep, n, p);
            0 <= k < n && keep(k) && select(s, keep, n)[p] == s[k]
        } by {
            if !(keep(n - 1) && p == prev.len()) {
                assert(select_index(s, keep, n, p) == select_index(s, keep, n - 1, p));
            }
        }
        assert forall|p: int, q: int| 0 <= p < q < select(s, keep, n).len() implies
            #[trigger] select_index(s, keep, n, p) < #[trigger] select_index(s, keep, n, q) by {
            assert(select_index(s, keep, n, p) == select_index(s, keep, n - 1, p));
            if !(keep(n - 1) && q == prev.len()) {
                assert(select_index(s, keep, n, q) == select_index(s, keep, n - 1, q));
            }
        }
    }
}

/// An element is selected before `n` exactly when some kept index before `n` holds it.
pub proof fn lemma_select_contains<A>(s: Seq<A>, keep: spec_fn(int) -> bool, n: int, x: A)
    requires
        0 <= n <= s.len(),
    ensures
        select(s, keep, n).contains(x) <==> exists|j: int| 0 <= j < n && keep(j) && s[j] == x,
    decreases n,
{
    if n > 0 {
        lemma_select_contains(s, keep, n - 1, x);
        let prev = select(s, keep, n - 1);
        let sel = select(s, keep, n);
        if sel.contains(x) {
            let k = choose|k: int| 0 <= k < sel.len() && sel[k] == x;
            if k < prev.len() {
                assert(prev[k] == x);
                assert(prev.contains(x));
                let j = choose|j: int| 0 <= j < n - 1 && keep(j) && s[j] == x;
                assert(0 <= j < n && keep(j) && s[j] == x);
            } else {
                assert(keep(n - 1) && s[n - 1] == x);
            }
        }
        if exists|j: int| 0 <= j < n && keep(j) && s[j] == x {
            let j = choose|j: int| 0 <= j < n && keep(j) && s[j] == x;
            if j < n - 1 {
                assert(prev.contains(x));
                let k = choose|k: int| 0 <= k < prev.len() && prev[k] == x;
                if keep(n - 1) {
                    assert(sel[k] == x);
                }
                assert(sel.contains(x));
            } else {
                assert(sel[prev.len() as int] == x);
            }
        }
    }
}

/// The sequences concatenated in order.
pub open spec fn concat<A>(ss: Seq<Seq<A>>) -> Seq<A>
    decreases ss.len(),
{
    if ss.len() == 0 {
        Seq::empty()
    } else {
        concat(ss.drop_last()) + ss.last()
    }
}

pub open spec fn strip_cr(line: Seq<char>) -> Seq<char> {
    if line.len() > 0 && line.last() == '\r' {
        line.drop_last()
    } else {
        line
    }
}

/// `str::lines`: pieces between `'\n'`, a `'\r'` before each `'\n'` removed,
/// and no empty last piece.
pub open spec fn lines(s: Seq<char>) -> Seq<Seq<char>> {
    let pieces = split_char(s, '\n');
    let init = pieces.drop_last().map_values(|l: Seq<char>| strip_cr(l));
    if pieces.last().len() == 0 {
        init
    } else {
        init.push(pieces.last())
    }
}

/// `v[lo..hi].lines()`, as windows into `v`.
pub fn line_windows(v: &Vec<char>, lo: usize, hi: usize) -> (w: Vec<(usize, usize)>)
    requires
        lo <= hi <= v.len(),
    ensures
        windows_are(v@, w@, lo as int, hi as int, lines(v@.subrange(lo as int, hi as int))),
{
    let pieces = split_windows(v, lo, hi, '\n');
    let ghost ps = split_char(v@.subrange(lo as int, hi as int), '\n');
    proof {
        lemma_split_char_len(v@.subrange(lo as int, hi as int), '\n');
    }
    let mut w: Vec<(usize, usize)> = Vec::new();
    let mut k: usize = 0;
    let n = pieces.len();
    while k + 1 < n
        invariant
            n == pieces@.len(),
            n >= 1,
            0 <= k < n,
            lo <= hi <= v.len(),
            windows_are(v@, pieces@, lo as int, hi as int, ps),
            windows_are(v@, w@, lo as int, hi as int, ps.take(k as int).map_values(|l: Seq<char>| strip_cr(l))),
        decreases n - k,
    {
        let (a, b) = pieces[k];
        assert(pieces@[k as int] == (a, b));
        if a < b && v[b - 1] == '\r' {
            w.push((a, b - 1));
            assert(v@.subrange(a as int, b - 1) =~= v@.subrange(a as int, b as int).drop_last());
        } else {
            w.push((a, b));
        }
        k = k + 1;
        assert(ps.take(k as int).map_values(|l: Seq<char>| strip_cr(l)) =~= ps.take(k - 1).map_values(|l: Seq<char>| strip_cr(l)).push(strip_cr(ps[k - 1])));
    }
    let (a, b) = pieces[n - 1];
    assert(pieces@[n - 1] == (a, b));
    assert(ps.take(n - 1) =~= ps.drop_last());
    if a < b {
        w.push((a, b));
        assert(w@.len() == lines(v@.subrange(lo as int, hi as int)).len());
    }
    w
}

/// `v@ == lit@`, for a literal `lit`.
pub fn vec_eq_str(v: &Vec<char>, lo: usize, hi: usize, lit: &str) -> (r: bool)
    requires
        lo <= hi <= v.len(),
    ensures
        r == (v@.subrange(lo as int, hi as int) == lit@),
{
    let l = chars_of(lit);
    window_eq(v, lo, hi, &l)
}

/// `v[lo..hi]` starts with the literal `lit`.
pub fn window_starts_with(v: &Vec<char>, lo: usize, hi: usize, lit: &str) -> (r: bool)
    requires
        lo <= hi <= v.len(),
    ensures
        r == starts_with(v@.subrange(lo as int, hi as int), lit@),
{
    let l = chars_of(lit);
    has_prefix(v, lo, hi, &l)
}

/// `v[lo..hi]` ends with the literal `lit`.
pub fn window_ends_with(v: &Vec<char>, lo: usize, hi: usize, lit: &str) -> (r: bool)
    requires
        lo <= hi <= v.len(),
    ensures
        r == ends_with(v@.subrange(lo as int, hi as int), lit@),
{
    let l = chars_of(lit);
    has_suffix(v, lo, hi, &l)
}

/// First index of the literal `lit` in `v[lo..hi]`.
pub fn window_find(v: &Vec<char>, lo: usize, hi: usize, lit: &str) -> (r: Option<usize>)
    requires
        lo <= hi <= v.len(),
    ensures
        match r {
            Some(i) => lo <= i && i + lit@.len() <= hi && find(v@.subrange(lo as int, hi as int), lit@)
                == Some(i - lo),
            None => find(v@.subrange(lo as int, hi as int), lit@) is None,
        },
{
    let l = chars_of(lit);
    find_in(v, lo, hi, &l)
}

/// `to_ascii_lowercase` of `v[lo..hi]`.
pub fn ascii_lower_window(v: &Vec<char>, lo: usize, hi: usize) -> (r: Vec<char>)
    requires
        lo <= hi <= v.len(),
    ensures
        r@ == ascii_lower(v@.subrange(lo as int, hi as int)),
{
    let mut out: Vec<char> = Vec::new();
    let mut i = lo;
    while i < hi
        invariant
            lo <= i <= hi <= v.len(),
            out@ == ascii_lower(v@.subrange(lo as int, i as int)),
        decreases hi - i,
    {
        out.push(ascii_lower_char_exec(v[i]));
        i = i + 1;
        assert(out@ =~= ascii_lower(v@.subrange(lo as int, i as int)));
    }
    out
}


pub open spec fn digit_char(d: nat) -> char {
    (('0' as u8) + (d % 10) as u8) as char
}

/// The decimal digits of `n` (`format!("{n}")`).
pub open spec fn decimal(n: nat) -> Seq<char>
    decreases n,
{
    if n < 10 {
        seq![digit_char(n)]
    } else {
        decimal(n / 10).push(digit_char(n % 10))
    }
}

/// `format!("{n}")` for a `u64`.
pub fn u64_to_decimal(n: u64) -> (r: String)
    ensures
        r@ == decimal(n as nat),
{
    let mut digits: Vec<char> = Vec::new();
    let mut m = n;
    // digits holds the decimal digits of n % 10^k, least significant first
    loop
        invariant_except_break
            decimal(n as nat) == decimal(m as nat) + digits@.reverse(),
        ensures
            decimal(n as nat) == digits@.reverse(),
        decreases m,
    {
        let d = (m % 10) as u8;
        let c = ('0' as u8 + d) as char;
        if m < 10 {
            let ghost before = digits@;
            digits.push(c);
            assert(decimal(m as nat) == seq![c]);
            assert(digits@.reverse() =~= seq![c] + before.reverse());
            break;
        }
        proof {
            assert(decimal(m as nat) == decimal((m / 10) as nat).push(c));
        }
        digits.push(c);
        assert(digits@.reverse() =~= seq![c] + digits@.drop_last().reverse());
        m = m / 10;
    }
    let mut out = String::new();
    let mut i = digits.len();
    while i > 0
        invariant
            0 <= i <= digits.len(),
            out@ == digits@.reverse().take(digits.len() - i),
        decreases i,
    {
        i = i - 1;
        push_char(&mut out, digits[i]);
        assert(out@ =~= digits@.reverse().take(digits.len() - i));
    }
    assert(digits@.reverse().take(digits.len() as int) =~= digits@.reverse());
    out
}

pub open spec fn hex_digit(d: u8) -> char {
    if d < 10 {
        (('0' as u8) + d) as char
    } else {
        (('a' as u8) + (d - 10) as u8) as char
    }
}

/// Two lower-case hexadecimal digits for each byte (`format!("{byte:02x}")`).
pub open spec fn hex_lower(bytes: Seq<u8>) -> Seq<char>
    decreases bytes.len(),
{
    if bytes.len() == 0 {
        Seq::empty()
    } else {
        hex_lower(bytes.drop_last()).push(hex_digit(bytes.last() / 16)).push(
            hex_digit(bytes.last() % 16),
        )
    }
}

pub proof fn lemma_hex_lower_len(bytes: Seq<u8>)
    ensures
        hex_lower(bytes).len() == 2 * bytes.len(),
    decreases bytes.len(),
{
    if bytes.len() > 0 {
        lemma_hex_lower_len(bytes.drop_last());
    }
}

fn hex_digit_exec(d: u8) -> (c: char)
    requires
        d < 16,
    ensures
        c == hex_digit(d),
{
    if d < 10 {
        ('0' as u8 + d) as char
    } else {
        ('a' as u8 + (d - 10)) as char
    }
}

/// Lower-case hexadecimal of the bytes.
pub fn to_hex_lower(bytes: &[u8]) -> (r: String)
    ensures
        r@ == hex_lower(bytes@),
{
    let mut out = String::new();
    let mut i: usize = 0;
    while i < bytes.len()
        invariant
            0 <= i <= bytes@.len(),
            out@ == hex_lower(bytes@.take(i as int)),
        decreases bytes@.len() - i,
    {
        let b = bytes[i];
        assert(bytes@.take(i + 1).drop_last() =~= bytes@.take(i as int));
        push_char(&mut out, hex_digit_exec(b / 16));
        push_char(&mut out, hex_digit_exec(b % 16));
        i = i + 1;
    }
    assert(bytes@.take(bytes@.len() as int) =~= bytes@);
    out
}


pub open spec fn pow10(k: nat) -> nat
    decreases k,
{
    if k == 0 {
        1
    } else {
        10 * pow10((k - 1) as nat)
    }
}

pub proof fn lemma_decimal_len(n: nat, k: nat)
    requires
        k >= 1,
        n < pow10(k),
    ensures
        decimal(n).len() <= k,
    decreases n,
{
    if n >= 10 {
        let p = pow10((k - 1) as nat);
        assert(k >= 2) by {
            if k == 1 {
                assert(pow10(1) == 10 * pow10(0));
            }
        }
        assert(n / 10 < p) by (nonlinear_arith)
            requires
                n < 10 * p,
        ;
        lemma_decimal_len(n / 10, (k - 1) as nat);
    }
}

/// A `u64` has at most 20 decimal digits.
pub proof fn lemma_u64_decimal_len(n: u64)
    ensures
        decimal(n as nat).len() <= 20,
{
    reveal_with_fuel(pow10, 21);
    assert(pow10(20) == 100000000000000000000);
    lemma_decimal_len(n as nat, 20);
}

/// UTF-8 takes at most four bytes per character.
pub proof fn lemma_encode_utf8_len(s: Seq<char>)
    ensures
        vstd::utf8::encode_utf8(s).len() <= 4 * s.len(),
    decreases s.len(),
{
    if s.len() > 0 {
        lemma_encode_utf8_len(s.drop_first());
    }
}


/// Whether two strings are equal, compared by their UTF-8 bytes.
pub fn str_eq(a: &str, b: &str) -> (r: bool)
    ensures
        r == (a@ == b@),
{
    let x = a.as_bytes();
    let y = b.as_bytes();
    proof {
        vstd::utf8::encode_utf8_decode_utf8(a@);
        vstd::utf8::encode_utf8_decode_utf8(b@);
    }
    if x.len() != y.len() {
        return false;
    }
    let mut i: usize = 0;
    while i < x.len()
        invariant
            0 <= i <= x@.len(),
            x@.len() == y@.len(),
            x@ == vstd::utf8::encode_utf8(a@),
            y@ == vstd::utf8::encode_utf8(b@),
            forall|j: int| 0 <= j < i ==> x@[j] == y@[j],
        decreases x@.len() - i,
    {
        if x[i] != y[i] {
            return false;
        }
        i = i + 1;
    }
    assert(x@ =~= y@);
    true
}


pub open spec fn digit_value(c: char) -> nat {
    ((c as u32) - ('0' as u32)) as nat
}

/// The number that a run of decimal digits writes.
pub open spec fn digits_value(s: Seq<char>) -> nat
    decreases s.len(),
{
    if s.len() == 0 {
        0
    } else {
        digits_value(s.drop_last()) * 10 + digit_value(s.last())
    }
}

/// `str::parse::<u64>`: an optional `+`, then decimal digits whose value fits `u64`.
pub open spec fn spec_parse_u64(s: Seq<char>) -> Option<u64> {
    let d = if s.len() > 0 && s[0] == '+' {
        s.drop_first()
    } else {
        s
    };
    if d.len() > 0 && all_in(d, CharClass::Digit) && digits_value(d) <= u64::MAX {
        Some(digits_value(d) as u64)
    } else {
        None
    }
}

proof fn lemma_digits_value_grows(s: Seq<char>, i: int)
    requires
        0 <= i <= s.len(),
        all_in(s, CharClass::Digit),
    ensures
        digits_value(s.take(i)) <= digits_value(s),
    decreases s.len() - i,
{
    if i < s.len() {
        assert(s.take(i + 1).drop_last() =~= s.take(i));
        assert(s.take(i + 1).last() == s[i]);
        lemma_digits_value_grows(s, i + 1);
    } else {
        assert(s.take(i) =~= s);
    }
}

/// `v[lo..hi].parse::<u64>()`.
pub fn parse_u64_window(v: &Vec<char>, lo: usize, hi: usize) -> (r: Option<u64>)
    requires
        lo <= hi <= v.len(),
    ensures
        r == spec_parse_u64(v@.subrange(lo as int, hi as int)),
{
    let ghost s = v@.subrange(lo as int, hi as int);
    let start = if lo < hi && v[lo] == '+' {
        lo + 1
    } else {
        lo
    };
    let ghost d = v@.subrange(start as int, hi as int);
    assert(d =~= (if s.len() > 0 && s[0] == '+' { s.drop_first() } else { s }));
    if start == hi || !all_match(v, start, hi, &CharClass::Digit) {
        return None;
    }
    let mut value: u64 = 0;
    let mut i = start;
    while i < hi
        invariant
            start <= i <= hi <= v.len(),
            d == v@.subrange(start as int, hi as int),
            all_in(d, CharClass::Digit),
            value == digits_value(d.take(i - start)),
            spec_parse_u64(v@.subrange(lo as int, hi as int)) == (if digits_value(d) <= u64::MAX {
                Some(digits_value(d) as u64)
            } else {
                None
            }),
        decreases hi - i,
    {
        assert(d.take(i + 1 - start).drop_last() =~= d.take(i - start));
        assert(d.take(i + 1 - start).last() == v@[i as int]);
        assert(d[i - start] == v@[i as int]);
        let digit = (v[i] as u8 - '0' as u8) as u64;
        match value.checked_mul(10) {
            Some(m) => match m.checked_add(digit) {
                Some(n) => {
                    value = n;
                },
                None => {
                    proof {
                        lemma_digits_value_grows(d, i + 1 - start);
                    }
                    return None;
                },
            },
            None => {
                proof {
                    lemma_digits_value_grows(d, i + 1 - start);
                }
                return None;
            },
        }
        i = i + 1;
    }
    assert(d.take(hi - start) =~= d);
    Some(value)
}


/// The Unicode lower case of `s` (`str::to_lowercase`).
pub uninterp spec fn unicode_lowercase(s: Seq<char>) -> Seq<char>;

/// Every character of `s` is ASCII.
pub open spec fn all_ascii(s: Seq<char>) -> bool {
    forall|i: int| 0 <= i < s.len() ==> (#[trigger] s[i] as u32) < 128
}

/// `str::to_lowercase`: for an ASCII string, its ASCII lower case.
pub open spec fn lowercase(s: Seq<char>) -> Seq<char> {
    if all_ascii(s) {
        ascii_lower(s)
    } else {
        unicode_lowercase(s)
    }
}

/// Calls `str::to_lowercase`: the result is `unicode_lowercase(s)`, and, as std documents for
/// ASCII characters, a string of ASCII characters is lowered as `to_ascii_lowercase` lowers it.
#[verifier::external_body]
pub(crate) fn to_lowercase(s: &str) -> (r: String)
    ensures
        r@ == unicode_lowercase(s@),
        all_ascii(s@) ==> r@ == ascii_lower(s@),
{
    s.to_lowercase()
}

/// The first `n` elements, or all of them where there are fewer.
pub open spec fn take_at_most<A>(s: Seq<A>, n: nat) -> Seq<A> {
    if s.len() <= n {
        s
    } else {
        s.take(n as int)
    }
}

} // verus!
