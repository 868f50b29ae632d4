//! The normal form of a `Cookie` header: a header whose pieces between `"; "` are clean
//! pairs is a fixed point of `normalize_cookies`, and so is what it makes of pasted text
//! where its pairs hold none of the characters that separate pairs or lines.
use vstd::prelude::*;
use crate::text::{
    concat, contains, find, join, lead, lemma_find, lemma_lead_stops, lemma_select_contains, lines,
    occurs_at, replace_line_breaks, select, split_char, lemma_split_char_len, strip_prefix, trail,
    trim, CharClass,
};
use crate::cookies::{
    byte_len, header_line_pairs, header_pairs, is_pair_piece, keep_last, last_of_name,
    lemma_join_keeps_last_of_each_name, netscape_line_pair, netscape_pairs, pair_piece_filter,
    pair_pieces, plain_body, plain_pairs, spec_compact_cookie_header, spec_cookie_name,
    spec_cookie_pair, spec_is_likely_youtube_cookie_name, spec_join_cookie_pairs,
    spec_normalize_cookies, MAX_COOKIE_HEADER_BYTES,
};

verus! {

/// `p` is non-empty and neither starts nor ends with white space.
pub open spec fn tight(p: Seq<char>) -> bool {
    p.len() > 0 && !CharClass::Whitespace.holds(p[0]) && !CharClass::Whitespace.holds(p.last())
}

/// No character of `p` is one of `cs`.
pub open spec fn free_of(p: Seq<char>, cs: Seq<char>) -> bool {
    forall|i: int| 0 <= i < p.len() ==> !cs.contains(#[trigger] p[i])
}

/// The trailing run of class `k` ends at a character outside `k`, or at the start.
proof fn lemma_trail_stops(s: Seq<char>, k: CharClass)
    ensures
        trail(s, k) <= s.len(),
        trail(s, k) < s.len() ==> !k.holds(s[s.len() - trail(s, k) - 1]),
    decreases s.len(),
{
    if s.len() > 0 && k.holds(s.last()) {
        let t = s.drop_last();
        lemma_trail_stops(t, k);
        if trail(s, k) < s.len() {
            assert(s[s.len() - trail(s, k) - 1] == t[t.len() - trail(t, k) - 1]);
        }
    }
}

/// A trimmed string that is not empty is tight.
proof fn lemma_trim_tight(q: Seq<char>)
    ensures
        trim(q).len() > 0 ==> tight(trim(q)),
{
    let k = CharClass::Whitespace;
    lemma_lead_stops(q, k);
    let a = q.skip(lead(q, k) as int);
    lemma_trail_stops(a, k);
    let t = a.take(a.len() - trail(a, k));
    assert(trim(q) == t);
    if t.len() > 0 {
        assert(t[0] == a[0]);
        assert(a[0] == q[lead(q, k) as int]);
        assert(t.last() == a[a.len() - trail(a, k) - 1]);
    }
}

/// A tight string is its own trim, also with a space before it.
pub proof fn lemma_tight_trim(p: Seq<char>)
    requires
        tight(p),
    ensures
        trim(p) == p,
        trim(seq![' '] + p) == p,
{
    let k = CharClass::Whitespace;
    assert(lead(p, k) == 0);
    assert(trail(p, k) == 0);
    assert(p.skip(0) =~= p);
    assert(p.take(p.len() as int) =~= p);
    let s = seq![' '] + p;
    assert(s.drop_first() =~= p);
    assert(k.holds(s[0]));
    assert(lead(s, k) == 1);
    assert(s.skip(1) =~= p);
}

/// Splitting a string without `c` at `c` gives the string alone.
pub proof fn lemma_split_absent(s: Seq<char>, c: char)
    requires
        !s.contains(c),
    ensures
        split_char(s, c) == seq![s],
    decreases s.len(),
{
    if s.len() > 0 {
        let t = s.drop_last();
        assert(!t.contains(c)) by {
            if t.contains(c) {
                let j = choose|j: int| 0 <= j < t.len() && t[j] == c;
                assert(s[j] == c);
            }
        }
        lemma_split_absent(t, c);
        assert(s.last() != c) by {
            assert(s[s.len() - 1] == s.last());
        }
        assert(t.push(s.last()) =~= s);
        assert(split_char(s, c) =~= seq![s]);
    } else {
        assert(s =~= Seq::<char>::empty());
    }
}

/// Splitting at a separator splits the two sides apart.
pub proof fn lemma_split_at(a: Seq<char>, b: Seq<char>, c: char)
    ensures
        split_char(a + seq![c] + b, c) == split_char(a, c) + split_char(b, c),
    decreases b.len(),
{
    let s = a + seq![c] + b;
    if b.len() == 0 {
        assert(s.drop_last() =~= a);
        assert(split_char(b, c) =~= seq![Seq::<char>::empty()]);
        assert(split_char(s, c) =~= split_char(a, c) + split_char(b, c));
    } else {
        let b2 = b.drop_last();
        lemma_split_at(a, b2, c);
        lemma_split_char_len(a, c);
        lemma_split_char_len(b2, c);
        assert(s.drop_last() =~= a + seq![c] + b2);
        assert(s.last() == b.last());
        let pa = split_char(a, c);
        let pb = split_char(b2, c);
        if b.last() == c {
            assert(split_char(s, c) =~= pa + pb.push(Seq::<char>::empty()));
        } else {
            assert((pa + pb).last() == pb.last());
            assert(split_char(s, c) =~= pa + pb.update(pb.len() - 1, pb.last().push(b.last())));
        }
    }
}

/// A string without line breaks keeps them unreplaced.
proof fn lemma_replace_line_breaks_absent(s: Seq<char>)
    requires
        !s.contains('\r'),
        !s.contains('\n'),
    ensures
        replace_line_breaks(s) == s,
    decreases s.len(),
{
    if s.len() > 0 {
        let t = s.drop_last();
        assert(!t.contains('\r') && !t.contains('\n')) by {
            if t.contains('\r') || t.contains('\n') {
                let j = choose|j: int| 0 <= j < t.len() && (t[j] == '\r' || t[j] == '\n');
                assert(s[j] == t[j]);
            }
        }
        lemma_replace_line_breaks_absent(t);
        assert(s[s.len() - 1] == s.last());
        assert(replace_line_breaks(s) =~= t.push(s.last()));
        assert(t.push(s.last()) =~= s);
    }
}

/// Filtering by a test that every element passes keeps them all.
pub proof fn lemma_filter_all<A>(s: Seq<A>, f: spec_fn(A) -> bool)
    requires
        forall|i: int| 0 <= i < s.len() ==> f(#[trigger] s[i]),
    ensures
        s.filter(f) == s,
    decreases s.len(),
{
    reveal(Seq::filter);
    if s.len() > 0 {
        let t = s.drop_last();
        assert forall|i: int| 0 <= i < t.len() implies f(#[trigger] t[i]) by {
            assert(t[i] == s[i]);
        }
        lemma_filter_all(t, f);
        assert(f(s[s.len() - 1]));
        assert(t.push(s.last()) =~= s);
    }
}

/// What holds of every element holds of every element that a filter keeps.
pub proof fn lemma_filter_keeps<A>(s: Seq<A>, f: spec_fn(A) -> bool, q: spec_fn(A) -> bool)
    requires
        forall|i: int| 0 <= i < s.len() ==> q(#[trigger] s[i]),
    ensures
        forall|i: int| 0 <= i < s.filter(f).len() ==> q(#[trigger] s.filter(f)[i]),
    decreases s.len(),
{
    reveal(Seq::filter);
    if s.len() > 0 {
        let t = s.drop_last();
        assert forall|i: int| 0 <= i < t.len() implies q(#[trigger] t[i]) by {
            assert(t[i] == s[i]);
        }
        lemma_filter_keeps(t, f, q);
        assert(q(s[s.len() - 1]));
        let u = t.filter(f);
        assert forall|i: int| 0 <= i < s.filter(f).len() implies q(#[trigger] s.filter(f)[i]) by {
            if i < u.len() {
                assert(s.filter(f)[i] == u[i]);
            }
        }
    }
}

/// What holds of every element of every part holds of every element of their concatenation.
pub proof fn lemma_concat_keeps<A>(ss: Seq<Seq<A>>, q: spec_fn(A) -> bool)
    requires
        forall|i: int, j: int| 0 <= i < ss.len() && 0 <= j < ss[i].len() ==> q(#[trigger] ss[i][j]),
    ensures
        forall|j: int| 0 <= j < concat(ss).len() ==> q(#[trigger] concat(ss)[j]),
    decreases ss.len(),
{
    if ss.len() > 0 {
        let t = ss.drop_last();
        assert forall|i: int, j: int| 0 <= i < t.len() && 0 <= j < t[i].len() implies q(#[trigger] t[i][j]) by {
            assert(t[i] == ss[i]);
        }
        lemma_concat_keeps(t, q);
        let c = concat(t);
        assert forall|j: int| 0 <= j < concat(ss).len() implies q(#[trigger] concat(ss)[j]) by {
            if j < c.len() {
                assert(concat(ss)[j] == c[j]);
            } else {
                assert(concat(ss)[j] == ss[ss.len() - 1][j - c.len()]);
            }
        }
    }
}

/// What holds of every element holds of every element that `select` keeps.
pub proof fn lemma_select_keeps<A>(s: Seq<A>, keep: spec_fn(int) -> bool, q: spec_fn(A) -> bool)
    requires
        forall|i: int| 0 <= i < s.len() ==> q(#[trigger] s[i]),
    ensures
        forall|i: int| 0 <= i < select(s, keep, s.len() as int).len()
            ==> q(#[trigger] select(s, keep, s.len() as int)[i]),
{
    let sel = select(s, keep, s.len() as int);
    assert forall|i: int| 0 <= i < sel.len() implies q(#[trigger] sel[i]) by {
        lemma_select_contains(s, keep, s.len() as int, sel[i]);
        assert(sel.contains(sel[i]));
        let j = choose|j: int| 0 <= j < s.len() && keep(j) && s[j] == sel[i];
        assert(q(s[j]));
    }
}

/// `select` keeps everything where everything is to be kept.
proof fn lemma_select_all<A>(s: Seq<A>, keep: spec_fn(int) -> bool, n: int)
    requires
        0 <= n <= s.len(),
        forall|i: int| 0 <= i < n ==> #[trigger] keep(i),
    ensures
        select(s, keep, n) == s.take(n),
    decreases n,
{
    if n > 0 {
        lemma_select_all(s, keep, n - 1);
        assert(keep(n - 1));
        assert(s.take(n - 1).push(s[n - 1]) =~= s.take(n));
    }
}

/// The pieces of `parts` joined with `"; "` come back from a split at `;` with a space
/// before each but the first.
pub open spec fn spaced(parts: Seq<Seq<char>>) -> Seq<Seq<char>> {
    Seq::new(parts.len(), |i: int| if i == 0 { parts[0] } else { seq![' '] + parts[i] })
}

/// Splitting pieces joined with `"; "` at `;` gives them back, spaced, where none holds `;`.
proof fn lemma_join_split(parts: Seq<Seq<char>>)
    requires
        parts.len() > 0,
        forall|i: int| 0 <= i < parts.len() ==> !(#[trigger] parts[i]).contains(';'),
    ensures
        split_char(join(parts, "; "@), ';') == spaced(parts),
    decreases parts.len(),
{
    reveal_strlit("; ");
    if parts.len() == 1 {
        lemma_split_absent(parts[0], ';');
        assert(spaced(parts) =~= seq![parts[0]]);
    } else {
        let init = parts.drop_last();
        assert forall|i: int| 0 <= i < init.len() implies !(#[trigger] init[i]).contains(';') by {
            assert(init[i] == parts[i]);
        }
        lemma_join_split(init);
        let b = seq![' '] + parts.last();
        assert(join(parts, "; "@) =~= join(init, "; "@) + seq![';'] + b);
        lemma_split_at(join(init, "; "@), b, ';');
        assert(!b.contains(';')) by {
            assert(!parts[parts.len() - 1].contains(';'));
            if b.contains(';') {
                let j = choose|j: int| 0 <= j < b.len() && b[j] == ';';
                assert(b[j] == parts.last()[j - 1]);
            }
        }
        lemma_split_absent(b, ';');
        assert(spaced(parts) =~= spaced(init) + seq![b]);
    }
}

/// Pieces joined with `"; "` hold a character that neither they nor the separator hold
/// nowhere.
proof fn lemma_join_lacks(parts: Seq<Seq<char>>, c: char)
    requires
        c != ';',
        c != ' ',
        forall|i: int| 0 <= i < parts.len() ==> !(#[trigger] parts[i]).contains(c),
    ensures
        !join(parts, "; "@).contains(c),
    decreases parts.len(),
{
    reveal_strlit("; ");
    if parts.len() == 1 {
        assert(!parts[0].contains(c));
    } else if parts.len() > 1 {
        let init = parts.drop_last();
        assert forall|i: int| 0 <= i < init.len() implies !(#[trigger] init[i]).contains(c) by {
            assert(init[i] == parts[i]);
        }
        lemma_join_lacks(init, c);
        let a = join(init, "; "@);
        let l = parts.last();
        assert(!parts[parts.len() - 1].contains(c));
        let s = join(parts, "; "@);
        assert(s =~= a + "; "@ + l);
        if s.contains(c) {
            let j = choose|j: int| 0 <= j < s.len() && s[j] == c;
            if j < a.len() {
                assert(a[j] == c);
            } else if j >= a.len() + 2 {
                assert(l[j - a.len() - 2] == c);
            }
        }
    }
}

/// Tight pieces joined with `"; "` are tight.
proof fn lemma_join_tight(parts: Seq<Seq<char>>)
    requires
        parts.len() > 0,
        forall|i: int| 0 <= i < parts.len() ==> tight(#[trigger] parts[i]),
    ensures
        tight(join(parts, "; "@)),
    decreases parts.len(),
{
    reveal_strlit("; ");
    if parts.len() == 1 {
        assert(tight(parts[0]));
    } else {
        let init = parts.drop_last();
        assert forall|i: int| 0 <= i < init.len() implies tight(#[trigger] init[i]) by {
            assert(init[i] == parts[i]);
        }
        lemma_join_tight(init);
        let a = join(init, "; "@);
        let l = parts.last();
        assert(tight(parts[parts.len() - 1]));
        let s = join(parts, "; "@);
        assert(s =~= a + "; "@ + l);
        assert(s[0] == a[0]);
        assert(s.last() == l.last());
    }
}

/// A pair as `normalize_cookies` keeps it: tight, with a `=` in it.
pub open spec fn pair_ok(p: Seq<char>) -> bool {
    tight(p) && contains(p, "="@)
}

/// The pairs that `normalize_cookies` reads from trimmed pasted text: those of `Cookie:`
/// lines, else those of a Netscape export, else those of a bare header.
pub open spec fn source_pairs(raw: Seq<char>) -> Seq<Seq<char>> {
    if header_pairs(raw).len() > 0 {
        header_pairs(raw)
    } else if netscape_pairs(raw).len() > 0 {
        netscape_pairs(raw)
    } else {
        plain_pairs(raw)
    }
}

/// The pairs that `compact_cookie_header` joins: the last of each name, and only those with
/// likely YouTube names where all of them would make too long a header.
pub open spec fn compact_pairs(pairs: Seq<Seq<char>>) -> Seq<Seq<char>> {
    if byte_len(spec_join_cookie_pairs(pairs)) <= MAX_COOKIE_HEADER_BYTES {
        keep_last(pairs)
    } else {
        keep_last(pairs.filter(|p: Seq<char>| spec_is_likely_youtube_cookie_name(spec_cookie_name(p))))
    }
}

/// The pairs of the header that `normalize_cookies` makes of `input`, in their order.
pub open spec fn normalized_pairs(input: Seq<char>) -> Seq<Seq<char>> {
    let raw = trim(input);
    if raw.len() == 0 {
        Seq::empty()
    } else {
        compact_pairs(source_pairs(raw))
    }
}

/// The header is its pairs joined with `"; "`.
proof fn lemma_normalize_is_join(input: Seq<char>)
    ensures
        spec_normalize_cookies(input) == join(normalized_pairs(input), "; "@),
{
    let raw = trim(input);
    if raw.len() > 0 {
        let p = source_pairs(raw);
        assert(spec_normalize_cookies(input) == spec_compact_cookie_header(p));
    }
}

/// `=` stands in `a + "=" + b`.
proof fn lemma_contains_eq_sign(a: Seq<char>, b: Seq<char>)
    ensures
        contains(a + "="@ + b, "="@),
{
    reveal_strlit("=");
    let s = a + "="@ + b;
    lemma_find(s, "="@);
    assert(s.subrange(a.len() as int, a.len() + 1int) =~= "="@);
    assert(occurs_at(s, "="@, a.len() as int));
}

/// Every pair piece is a pair as kept.
proof fn lemma_pair_pieces_ok(s: Seq<char>, forbid_colon: bool)
    ensures
        forall|i: int| 0 <= i < pair_pieces(s, forbid_colon).len()
            ==> pair_ok(#[trigger] pair_pieces(s, forbid_colon)[i]),
{
    let m = split_char(s, ';').map_values(|p: Seq<char>| trim(p));
    let f = pair_piece_filter(forbid_colon);
    let q = |p: Seq<char>| p.len() > 0 ==> tight(p);
    assert forall|i: int| 0 <= i < m.len() implies q(#[trigger] m[i]) by {
        lemma_trim_tight(split_char(s, ';')[i]);
    }
    lemma_filter_keeps(m, f, q);
    broadcast use vstd::seq_lib::group_filter_ensures;
    assert forall|i: int| 0 <= i < pair_pieces(s, forbid_colon).len()
        implies pair_ok(#[trigger] pair_pieces(s, forbid_colon)[i]) by {
        assert(pair_pieces(s, forbid_colon) == m.filter(f));
        assert(f(m.filter(f)[i]));
        assert(q(m.filter(f)[i]));
    }
}

/// Every pair that `normalize_cookies` reads is a pair as kept.
proof fn lemma_source_pairs_ok(raw: Seq<char>)
    ensures
        forall|i: int| 0 <= i < source_pairs(raw).len() ==> pair_ok(#[trigger] source_pairs(raw)[i]),
{
    let q = |p: Seq<char>| pair_ok(p);
    let ls = lines(raw);
    let hs = ls.map_values(|l: Seq<char>| header_line_pairs(trim(l)));
    assert forall|i: int, j: int| 0 <= i < hs.len() && 0 <= j < hs[i].len() implies q(#[trigger] hs[i][j]) by {
        let line = trim(ls[i]);
        let rest = match strip_prefix(line, "cookie:"@) {
            Some(r) => Some(r),
            None => strip_prefix(line, "Cookie:"@),
        };
        if let Some(r) = rest {
            lemma_pair_pieces_ok(trim(r), false);
        }
    }
    lemma_concat_keeps(hs, q);
    let ns = ls.map_values(|l: Seq<char>| netscape_line_pair(trim(l)));
    assert forall|i: int, j: int| 0 <= i < ns.len() && 0 <= j < ns[i].len() implies q(#[trigger] ns[i][j]) by {
        let line = trim(ls[i]);
        let parts = split_char(line, '\t');
        if ns[i].len() > 0 {
            assert(parts.len() >= 7);
            let n = trim(parts[5]);
            let v = trim(parts[6]);
            assert(spec_cookie_pair(parts[5], parts[6]) == Some(n + "="@ + v));
            assert(ns[i][j] == n + "="@ + v);
            lemma_trim_tight(parts[5]);
            lemma_trim_tight(parts[6]);
            lemma_contains_eq_sign(n, v);
            reveal_strlit("=");
            let p = n + "="@ + v;
            assert(p[0] == n[0]);
            assert(p.last() == v.last());
        }
    }
    lemma_concat_keeps(ns, q);
    lemma_pair_pieces_ok(replace_line_breaks(plain_body(raw)), true);
}

/// Where every pair of `pairs` is as kept, so is every pair of `compact_pairs(pairs)`, and
/// their names are distinct.
proof fn lemma_compact_pairs_ok(pairs: Seq<Seq<char>>)
    requires
        forall|i: int| 0 <= i < pairs.len() ==> pair_ok(#[trigger] pairs[i]),
    ensures
        forall|i: int| 0 <= i < compact_pairs(pairs).len() ==> pair_ok(#[trigger] compact_pairs(pairs)[i]),
        forall|i: int, j: int| 0 <= i < j < compact_pairs(pairs).len()
            ==> spec_cookie_name(#[trigger] compact_pairs(pairs)[i]) != spec_cookie_name(#[trigger] compact_pairs(pairs)[j]),
{
    let q = |p: Seq<char>| pair_ok(p);
    let lik = |p: Seq<char>| spec_is_likely_youtube_cookie_name(spec_cookie_name(p));
    if byte_len(spec_join_cookie_pairs(pairs)) <= MAX_COOKIE_HEADER_BYTES {
        lemma_select_keeps(pairs, crate::cookies::last_of_name_at(pairs), q);
        lemma_join_keeps_last_of_each_name(pairs);
    } else {
        let f = pairs.filter(lik);
        lemma_filter_keeps(pairs, lik, q);
        lemma_select_keeps(f, crate::cookies::last_of_name_at(f), q);
        lemma_join_keeps_last_of_each_name(f);
    }
}

/// A string of tight pairs, none holding `;`, `:`, a tab or a line break, read as pasted
/// text: its pairs are read as a bare header, and they are the pairs given.
proof fn lemma_reread(parts: Seq<Seq<char>>)
    requires
        parts.len() > 0,
        forall|i: int| 0 <= i < parts.len() ==> pair_ok(#[trigger] parts[i]),
        forall|i: int| 0 <= i < parts.len()
            ==> free_of(#[trigger] parts[i], seq![';', ':', '\t', '\r', '\n']),
    ensures
        trim(join(parts, "; "@)) == join(parts, "; "@),
        join(parts, "; "@).len() > 0,
        source_pairs(join(parts, "; "@)) == parts,
{
    let r = join(parts, "; "@);
    let bad = seq![';', ':', '\t', '\r', '\n'];
    assert forall|i: int, c: char| 0 <= i < parts.len() && #[trigger] bad.contains(c)
        implies !(#[trigger] parts[i]).contains(c) by {
        assert(free_of(parts[i], bad));
        if parts[i].contains(c) {
            let j = choose|j: int| 0 <= j < parts[i].len() && parts[i][j] == c;
            assert(!bad.contains(parts[i][j]));
        }
    }
    assert(bad.contains(';') && bad.contains(':') && bad.contains('\t')
        && bad.contains('\r') && bad.contains('\n')) by {
        assert(bad[0] == ';' && bad[1] == ':' && bad[2] == '\t' && bad[3] == '\r' && bad[4] == '\n');
    }
    assert forall|i: int| 0 <= i < parts.len() implies tight(#[trigger] parts[i]) by {
        assert(pair_ok(parts[i]));
    }
    lemma_join_tight(parts);
    lemma_tight_trim(r);
    lemma_join_lacks(parts, ':');
    lemma_join_lacks(parts, '\t');
    lemma_join_lacks(parts, '\r');
    lemma_join_lacks(parts, '\n');
    reveal_strlit("cookie:");
    reveal_strlit("Cookie:");
    reveal_strlit(":");
    assert(strip_prefix(r, "cookie:"@) is None) by {
        if r.len() >= 7 && r.take(7) == "cookie:"@ {
            assert(r[6] == r.take(7)[6]);
        }
    }
    assert(strip_prefix(r, "Cookie:"@) is None) by {
        if r.len() >= 7 && r.take(7) == "Cookie:"@ {
            assert(r[6] == r.take(7)[6]);
        }
    }
    lemma_split_absent(r, '\n');
    assert(lines(r) =~= seq![r]);
    assert(header_line_pairs(trim(r)) =~= Seq::<Seq<char>>::empty());
    let hs = lines(r).map_values(|l: Seq<char>| header_line_pairs(trim(l)));
    assert(hs =~= seq![Seq::<Seq<char>>::empty()]);
    assert(concat(hs) =~= Seq::<Seq<char>>::empty()) by {
        assert(hs.drop_last() =~= Seq::<Seq<Seq<char>>>::empty());
        assert(concat(hs.drop_last()) =~= Seq::<Seq<char>>::empty());
        assert(hs.last() == hs[0]);
        assert(hs[0] =~= Seq::<Seq<char>>::empty());
    }
    lemma_split_absent(r, '\t');
    assert(netscape_line_pair(trim(r)) =~= Seq::<Seq<char>>::empty());
    let ns = lines(r).map_values(|l: Seq<char>| netscape_line_pair(trim(l)));
    assert(ns =~= seq![Seq::<Seq<char>>::empty()]);
    assert(concat(ns) =~= Seq::<Seq<char>>::empty()) by {
        assert(ns.drop_last() =~= Seq::<Seq<Seq<char>>>::empty());
        assert(concat(ns.drop_last()) =~= Seq::<Seq<char>>::empty());
        assert(ns.last() == ns[0]);
        assert(ns[0] =~= Seq::<Seq<char>>::empty());
    }
    assert(plain_body(r) == r);
    lemma_replace_line_breaks_absent(r);
    assert forall|i: int| 0 <= i < parts.len() implies !(#[trigger] parts[i]).contains(';') by {
        assert(bad.contains(';'));
    }
    lemma_join_split(parts);
    let m = split_char(r, ';').map_values(|p: Seq<char>| trim(p));
    assert forall|i: int| 0 <= i < parts.len() implies m[i] == parts[i] by {
        lemma_tight_trim(parts[i]);
    }
    assert(m =~= parts);
    let f = pair_piece_filter(true);
    assert forall|i: int| 0 <= i < parts.len() implies f(#[trigger] parts[i]) by {
        assert(!parts[i].contains(':'));
        lemma_find(parts[i], ":"@);
        if contains(parts[i], ":"@) {
            let j = find(parts[i], ":"@).unwrap();
            assert(parts[i].subrange(j, j + 1)[0] == ':');
            assert(parts[i][j] == ':');
        }
        assert(is_pair_piece(parts[i], true));
    }
    lemma_filter_all(parts, f);
    assert(plain_pairs(r) == parts);
}

/// A header that normalising leaves as it is: its pieces between `"; "` are pairs as kept
/// (tight, with a `=`), hold none of `;`, `:`, a tab or a line break, and have distinct
/// names; and where the header is longer than `MAX_COOKIE_HEADER_BYTES`, every name is a
/// likely YouTube name.
pub open spec fn clean_header_pieces(pieces: Seq<Seq<char>>) -> bool {
    &&& forall|i: int| 0 <= i < pieces.len() ==> pair_ok(#[trigger] pieces[i])
    &&& forall|i: int| 0 <= i < pieces.len()
        ==> free_of(#[trigger] pieces[i], seq![';', ':', '\t', '\r', '\n'])
    &&& forall|i: int, j: int| 0 <= i < j < pieces.len()
        ==> spec_cookie_name(#[trigger] pieces[i]) != spec_cookie_name(#[trigger] pieces[j])
    &&& byte_len(join(pieces, "; "@)) > MAX_COOKIE_HEADER_BYTES ==> forall|i: int| 0 <= i < pieces.len()
        ==> spec_is_likely_youtube_cookie_name(spec_cookie_name(#[trigger] pieces[i]))
}

/// Normalising a header whose pieces between `"; "` are clean gives it back unchanged.
pub proof fn lemma_normalize_fixes_clean_header(pieces: Seq<Seq<char>>)
    requires
        clean_header_pieces(pieces),
    ensures
        spec_normalize_cookies(join(pieces, "; "@)) == join(pieces, "; "@),
{
    let k = pieces;
    let r = join(k, "; "@);
    if k.len() == 0 {
        assert(r =~= Seq::<char>::empty());
        assert(trim(r) =~= Seq::<char>::empty());
    } else {
        lemma_reread(k);
        assert(spec_normalize_cookies(r) == spec_compact_cookie_header(source_pairs(r)));
        assert forall|i: int| 0 <= i < k.len() implies #[trigger] last_of_name(k, i) by {
            assert forall|j: int| i < j < k.len() implies spec_cookie_name(#[trigger] k[j]) != spec_cookie_name(k[i]) by {
            }
        }
        lemma_select_all(k, crate::cookies::last_of_name_at(k), k.len() as int);
        assert(k.take(k.len() as int) =~= k);
        assert(keep_last(k) == k);
        assert(spec_join_cookie_pairs(k) == r);
        if byte_len(r) > MAX_COOKIE_HEADER_BYTES {
            let lik = |q: Seq<char>| spec_is_likely_youtube_cookie_name(spec_cookie_name(q));
            assert forall|i: int| 0 <= i < k.len() implies lik(#[trigger] k[i]) by {
            }
            lemma_filter_all(k, lik);
            assert(spec_compact_cookie_header(k) == spec_join_cookie_pairs(keep_last(k.filter(lik))));
        }
    }
}

/// Normalising a header that `normalize_cookies` made gives it back unchanged, where none of
/// its pairs holds `;`, `:`, a tab or a line break: the header is its pairs joined with
/// `"; "`, and normalising that text again yields the same text.
pub proof fn lemma_normalize_cookies_idempotent(input: Seq<char>)
    requires
        forall|i: int| 0 <= i < normalized_pairs(input).len()
            ==> free_of(#[trigger] normalized_pairs(input)[i], seq![';', ':', '\t', '\r', '\n']),
    ensures
        spec_normalize_cookies(input) == join(normalized_pairs(input), "; "@),
        spec_normalize_cookies(spec_normalize_cookies(input)) == spec_normalize_cookies(input),
{
    lemma_normalize_is_join(input);
    let k = normalized_pairs(input);
    if k.len() > 0 {
        let raw = trim(input);
        let p = source_pairs(raw);
        lemma_source_pairs_ok(raw);
        lemma_compact_pairs_ok(p);
        assert(k == compact_pairs(p));
        if byte_len(join(k, "; "@)) > MAX_COOKIE_HEADER_BYTES {
            let lik = |q: Seq<char>| spec_is_likely_youtube_cookie_name(spec_cookie_name(q));
            assert(byte_len(spec_join_cookie_pairs(p)) > MAX_COOKIE_HEADER_BYTES);
            let f = p.filter(lik);
            assert(k == keep_last(f));
            broadcast use vstd::seq_lib::group_filter_ensures;
            assert forall|i: int| 0 <= i < f.len() implies lik(#[trigger] f[i]) by {
            }
            lemma_select_keeps(f, crate::cookies::last_of_name_at(f), lik);
            assert forall|i: int| 0 <= i < k.len()
                implies spec_is_likely_youtube_cookie_name(spec_cookie_name(#[trigger] k[i])) by {
                assert(lik(k[i]));
            }
        }
    }
    lemma_normalize_fixes_clean_header(k);
}

/// A line of a Netscape export that gives the pair `p`: it has at least seven tab-separated
/// fields, the first a supported cookie domain (YouTube's or Google's), and `p` is its
/// trimmed name, `=`, its trimmed value.
pub open spec fn supported_line_gives(line: Seq<char>, p: Seq<char>) -> bool {
    let parts = split_char(line, '\t');
    &&& parts.len() >= 7
    &&& crate::cookies::spec_is_supported_cookie_domain(parts[0])
    &&& p == trim(parts[5]) + "="@ + trim(parts[6])
}

/// What holds of every pair given holds of every pair kept.
proof fn lemma_compact_pairs_keep(pairs: Seq<Seq<char>>, q: spec_fn(Seq<char>) -> bool)
    requires
        forall|i: int| 0 <= i < pairs.len() ==> q(#[trigger] pairs[i]),
    ensures
        forall|i: int| 0 <= i < compact_pairs(pairs).len() ==> q(#[trigger] compact_pairs(pairs)[i]),
{
    let lik = |p: Seq<char>| spec_is_likely_youtube_cookie_name(spec_cookie_name(p));
    if byte_len(spec_join_cookie_pairs(pairs)) <= MAX_COOKIE_HEADER_BYTES {
        lemma_select_keeps(pairs, crate::cookies::last_of_name_at(pairs), q);
    } else {
        let f = pairs.filter(lik);
        lemma_filter_keeps(pairs, lik, q);
        lemma_select_keeps(f, crate::cookies::last_of_name_at(f), q);
    }
}

/// Cookies of other sites in a Netscape export are not sent: where pasted text has no
/// `Cookie:` lines and is read as a Netscape export, every pair of the header comes from a
/// line whose domain is YouTube's or Google's, with that line's name and value.
pub proof fn lemma_netscape_pairs_from_supported_lines(input: Seq<char>)
    requires
        header_pairs(trim(input)).len() == 0,
        netscape_pairs(trim(input)).len() > 0,
    ensures
        spec_normalize_cookies(input) == join(normalized_pairs(input), "; "@),
        forall|i: int| 0 <= i < normalized_pairs(input).len() ==> exists|j: int|
            0 <= j < lines(trim(input)).len()
                && supported_line_gives(trim(lines(trim(input))[j]), #[trigger] normalized_pairs(input)[i]),
{
    lemma_normalize_is_join(input);
    let raw = trim(input);
    let ls = lines(raw);
    let q = |p: Seq<char>| exists|j: int| 0 <= j < ls.len() && supported_line_gives(trim(ls[j]), p);
    let ns = ls.map_values(|l: Seq<char>| netscape_line_pair(trim(l)));
    assert forall|i: int, k: int| 0 <= i < ns.len() && 0 <= k < ns[i].len() implies q(#[trigger] ns[i][k]) by {
        let line = trim(ls[i]);
        let parts = split_char(line, '\t');
        assert(ns[i] == netscape_line_pair(line));
        assert(parts.len() >= 7 && crate::cookies::spec_is_supported_cookie_domain(parts[0]));
        let n = trim(parts[5]);
        let v = trim(parts[6]);
        assert(spec_cookie_pair(parts[5], parts[6]) == Some(n + "="@ + v));
        assert(ns[i][k] == n + "="@ + v);
        assert(supported_line_gives(trim(ls[i]), ns[i][k]));
    }
    lemma_concat_keeps(ns, q);
    if raw.len() > 0 {
        assert(source_pairs(raw) == netscape_pairs(raw));
        lemma_compact_pairs_keep(netscape_pairs(raw), q);
    }
}

} // verus!
