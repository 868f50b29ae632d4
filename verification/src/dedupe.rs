//! Keeping one of each track and playlist.
use vstd::prelude::*;
use crate::cookies::{lemma_views_push, views};
use crate::models::{
    lemma_playlist_views_push, lemma_track_views_push, playlist_views, track_views, Playlist,
    PlaylistPayload, Track, TrackPayload,
};
use crate::text::{lemma_select_contains, lemma_select_index, lowercase, push_str, select, select_index, str_eq, take_at_most, to_lowercase, trim, trimmed};

verus! {

/// `ids[i]` is non-empty and no earlier id equals it.
pub open spec fn first_of_id(ids: Seq<Seq<char>>, i: int) -> bool {
    ids[i].len() > 0 && forall|j: int| 0 <= j < i ==> ids[j] != ids[i]
}

pub open spec fn first_of_id_at(ids: Seq<Seq<char>>) -> spec_fn(int) -> bool {
    |i: int| first_of_id(ids, i)
}

pub open spec fn track_ids(ts: Seq<Track>) -> Seq<Seq<char>> {
    ts.map_values(|t: Track| t.id)
}

pub open spec fn playlist_ids(ps: Seq<Playlist>) -> Seq<Seq<char>> {
    ps.map_values(|p: Playlist| p.id)
}

/// The first track of each non-empty id, at most `limit` of them.
pub open spec fn spec_dedupe_tracks(ts: Seq<Track>, limit: nat) -> Seq<Track> {
    take_at_most(select(ts, first_of_id_at(track_ids(ts)), ts.len() as int), limit)
}

/// The first playlist of each non-empty id, at most `limit` of them.
pub open spec fn spec_dedupe_playlists(ps: Seq<Playlist>, limit: nat) -> Seq<Playlist> {
    take_at_most(select(ps, first_of_id_at(playlist_ids(ps)), ps.len() as int), limit)
}

/// `x` is among the ids before `i`.
pub open spec fn id_before(ids: Seq<Seq<char>>, x: Seq<char>, i: int) -> bool {
    exists|j: int| 0 <= j < i && ids[j] == x
}

/// The ids selected by `first_of_id` before `n` are exactly the non-empty ids before `n`.
proof fn lemma_first_ids_cover(ids: Seq<Seq<char>>, n: int, x: Seq<char>)
    requires
        0 <= n <= ids.len(),
        x.len() > 0,
    ensures
        select(ids, first_of_id_at(ids), n).contains(x) <==> id_before(ids, x, n),
    decreases n,
{
    let sel = select(ids, first_of_id_at(ids), n);
    if n == 0 {
        assert(!sel.contains(x));
    } else {
        lemma_first_ids_cover(ids, n - 1, x);
        let prev = select(ids, first_of_id_at(ids), n - 1);
        if first_of_id(ids, n - 1) {
            assert(sel == prev.push(ids[n - 1]));
            if sel.contains(x) {
                let k = choose|k: int| 0 <= k < sel.len() && sel[k] == x;
                if k < prev.len() {
                    assert(prev[k] == x);
                    assert(prev.contains(x));
                    let j = choose|j: int| 0 <= j < n - 1 && #[trigger] ids[j] == x;
                    assert(0 <= j < n && ids[j] == x);
                } else {
                    assert(ids[n - 1] == x);
                }
            }
            if id_before(ids, x, n) {
                let j = choose|j: int| 0 <= j < n && #[trigger] ids[j] == x;
                if j < n - 1 {
                    assert(id_before(ids, x, n - 1));
                    let k = choose|k: int| 0 <= k < prev.len() && prev[k] == x;
                    assert(sel[k] == x);
                } else {
                    assert(sel[prev.len() as int] == x);
                }
            }
        } else {
            assert(sel == prev);
            if sel.contains(x) {
                let j = choose|j: int| 0 <= j < n - 1 && #[trigger] ids[j] == x;
                assert(0 <= j < n && ids[j] == x);
            }
            if id_before(ids, x, n) {
                let j = choose|j: int| 0 <= j < n && #[trigger] ids[j] == x;
                if j == n - 1 {
                    let k = choose|k: int| 0 <= k < n - 1 && #[trigger] ids[k] == ids[n - 1];
                    assert(ids[k] == x);
                } else {
                    assert(ids[j] == x);
                }
                assert(id_before(ids, x, n - 1));
            }
        }
    }
}

proof fn lemma_select_map<A, B>(s: Seq<A>, f: spec_fn(A) -> B, keep: spec_fn(int) -> bool, n: int)
    requires
        0 <= n <= s.len(),
    ensures
        select(s, keep, n).map_values(f) == select(s.map_values(f), keep, n),
    decreases n,
{
    if n > 0 {
        lemma_select_map(s, f, keep, n - 1);
        assert(select(s, keep, n).map_values(f) =~= select(s.map_values(f), keep, n));
    }
}

pub fn contains_str(seen: &Vec<String>, x: &str) -> (r: bool)
    ensures
        r == views(seen@).contains(x@),
{
    let mut i: usize = 0;
    while i < seen.len()
        invariant
            0 <= i <= seen.len(),
            forall|j: int| 0 <= j < i ==> views(seen@)[j] != x@,
        decreases seen.len() - i,
    {
        assert(views(seen@)[i as int] == seen@[i as int]@);
        if str_eq(seen[i].as_str(), x) {
            return true;
        }
        i = i + 1;
    }
    false
}

/// The first track of each non-empty id, at most `limit` of them.
pub fn dedupe_tracks(tracks: Vec<TrackPayload>, limit: usize) -> (r: Vec<TrackPayload>)
    ensures
        track_views(r@) == spec_dedupe_tracks(track_views(tracks@), limit as nat),
{
    let ghost ts = track_views(tracks@);
    let ghost ids = track_ids(ts);
    let ghost keep = first_of_id_at(ids);
    let mut out: Vec<TrackPayload> = Vec::new();
    let mut seen: Vec<String> = Vec::new();
    let mut i: usize = 0;
    let n = tracks.len();
    for t in it: tracks
        invariant
            n == ts.len(),
            ts == track_views(it.seq()),
            ids == track_ids(ts),
            keep == first_of_id_at(ids),
            i == it.index(),
            i <= ts.len(),
            track_views(out@) == select(ts, keep, i as int),
            views(seen@) == select(ids, keep, i as int),
    {
        assert(ts[i as int] == t@);
        assert(ids[i as int] == t.id@);
        let id = t.id.as_str();
        let fresh = id.unicode_len() > 0 && !contains_str(&seen, id);
        proof {
            if t.id@.len() > 0 {
                lemma_first_ids_cover(ids, i as int, t.id@);
            }
            assert(fresh == first_of_id(ids, i as int));
        }
        if fresh {
            let c = t.id.clone();
            proof {
                lemma_views_push(seen@, c);
                lemma_track_views_push(out@, t);
            }
            seen.push(c);
            out.push(t);
        }
        i = i + 1;
    }
    proof {
        assert(i == ts.len());
    }
    out.truncate(limit);
    assert(track_views(out@) =~= take_at_most(select(ts, keep, ts.len() as int), limit as nat));
    out
}

/// The playlists with the first of each non-empty id, at most `limit` of them.
pub fn dedupe_playlists(playlists: Vec<PlaylistPayload>, limit: usize) -> (r: Vec<PlaylistPayload>)
    ensures
        playlist_views(r@) == spec_dedupe_playlists(playlist_views(playlists@), limit as nat),
{
    let ghost ps = playlist_views(playlists@);
    let ghost ids = playlist_ids(ps);
    let ghost keep = first_of_id_at(ids);
    let mut out: Vec<PlaylistPayload> = Vec::new();
    let mut seen: Vec<String> = Vec::new();
    let mut i: usize = 0;
    let n = playlists.len();
    for p in it: playlists
        invariant
            n == ps.len(),
            ps == playlist_views(it.seq()),
            ids == playlist_ids(ps),
            keep == first_of_id_at(ids),
            i == it.index(),
            i <= ps.len(),
            playlist_views(out@) == select(ps, keep, i as int),
            views(seen@) == select(ids, keep, i as int),
    {
        assert(ps[i as int] == p@);
        assert(ids[i as int] == p.id@);
        let id = p.id.as_str();
        let fresh = id.unicode_len() > 0 && !contains_str(&seen, id);
        proof {
            if p.id@.len() > 0 {
                lemma_first_ids_cover(ids, i as int, p.id@);
            }
            assert(fresh == first_of_id(ids, i as int));
        }
        if fresh {
            let c = p.id.clone();
            proof {
                lemma_views_push(seen@, c);
                lemma_playlist_views_push(out@, p);
            }
            seen.push(c);
            out.push(p);
        }
        i = i + 1;
    }
    proof {
        assert(i == ps.len());
    }
    out.truncate(limit);
    assert(playlist_views(out@) =~= take_at_most(select(ps, keep, ps.len() as int), limit as nat));
    out
}

/// What a mix compares besides the id: the trimmed, lower-cased title and artist, joined by
/// `::`.
pub open spec fn identity(t: Track) -> Seq<char> {
    lowercase(trim(t.title)) + "::"@ + lowercase(trim(t.artist))
}

pub open spec fn identities(ts: Seq<Track>) -> Seq<Seq<char>> {
    ts.map_values(|t: Track| identity(t))
}

/// Track `i` is the first of its id and has a title or an artist.
pub open spec fn titled_first(ts: Seq<Track>, i: int) -> bool {
    first_of_id(track_ids(ts), i) && identity(ts[i]) != "::"@
}

pub open spec fn titled_first_at(ts: Seq<Track>) -> spec_fn(int) -> bool {
    |i: int| titled_first(ts, i)
}

/// Track `i` of a mix stays: it is the first of its id, and no earlier first of its id has
/// the same title and artist (tracks with neither are compared by id alone).
pub open spec fn mix_keeps(ts: Seq<Track>, i: int) -> bool {
    &&& first_of_id(track_ids(ts), i)
    &&& (identity(ts[i]) == "::"@ || forall|j: int|
        0 <= j < i && first_of_id(track_ids(ts), j) ==> #[trigger] identity(ts[j]) != identity(ts[i]))
}

pub open spec fn mix_keeps_at(ts: Seq<Track>) -> spec_fn(int) -> bool {
    |i: int| mix_keeps(ts, i)
}

pub open spec fn spec_dedupe_mix_tracks(ts: Seq<Track>, limit: nat) -> Seq<Track> {
    take_at_most(select(ts, mix_keeps_at(ts), ts.len() as int), limit)
}

/// `identity` of a track's fields, computed.
fn track_identity(t: &TrackPayload) -> (r: String)
    ensures
        r@ == identity(t@),
{
    let title = trimmed(t.title.as_str());
    let artist = trimmed(t.artist.as_str());
    let mut r = to_lowercase(title.as_str());
    push_str(&mut r, "::");
    let a = to_lowercase(artist.as_str());
    push_str(&mut r, a.as_str());
    r
}

/// The tracks of a mix, each id once and each title and artist once, at most `limit` of them.
pub fn dedupe_mix_tracks(tracks: Vec<TrackPayload>, limit: usize) -> (r: Vec<TrackPayload>)
    ensures
        track_views(r@) == spec_dedupe_mix_tracks(track_views(tracks@), limit as nat),
{
    let ghost ts = track_views(tracks@);
    let ghost ids = track_ids(ts);
    let ghost idns = identities(ts);
    let ghost keep = first_of_id_at(ids);
    let ghost tkeep = titled_first_at(ts);
    let ghost mkeep = mix_keeps_at(ts);
    let mut out: Vec<TrackPayload> = Vec::new();
    let mut seen_ids: Vec<String> = Vec::new();
    let mut seen_titles: Vec<String> = Vec::new();
    let mut i: usize = 0;
    let n = tracks.len();
    for t in it: tracks
        invariant
            n == ts.len(),
            ts == track_views(it.seq()),
            ids == track_ids(ts),
            idns == identities(ts),
            keep == first_of_id_at(ids),
            tkeep == titled_first_at(ts),
            mkeep == mix_keeps_at(ts),
            i == it.index(),
            i <= ts.len(),
            track_views(out@) == select(ts, mkeep, i as int),
            views(seen_ids@) == select(ids, keep, i as int),
            views(seen_titles@) == select(idns, tkeep, i as int),
    {
        assert(ts[i as int] == t@);
        assert(ids[i as int] == t.id@);
        let id = t.id.as_str();
        let fresh_id = id.unicode_len() > 0 && !contains_str(&seen_ids, id);
        proof {
            if t.id@.len() > 0 {
                lemma_first_ids_cover(ids, i as int, t.id@);
            }
            assert(fresh_id == first_of_id(ids, i as int));
        }
        if fresh_id {
            let c = t.id.clone();
            proof {
                lemma_views_push(seen_ids@, c);
            }
            seen_ids.push(c);
            let idn = track_identity(&t);
            assert(idns[i as int] == idn@);
            let blank = str_eq(idn.as_str(), "::");
            let fresh_title = blank || !contains_str(&seen_titles, idn.as_str());
            proof {
                lemma_select_contains(idns, tkeep, i as int, idn@);
                if fresh_title && !blank {
                    assert forall|j: int| 0 <= j < i && first_of_id(track_ids(ts), j)
                        implies #[trigger] identity(ts[j]) != identity(ts[i as int]) by {
                        if identity(ts[j]) == identity(ts[i as int]) {
                            assert(idns[j] == identity(ts[j]));
                            assert(tkeep(j));
                        }
                    }
                }
                if !fresh_title {
                    let j = choose|j: int| 0 <= j < i && tkeep(j) && idns[j] == idn@;
                    assert(identity(ts[j]) == identity(ts[i as int]));
                }
                assert(fresh_title == mix_keeps(ts, i as int));
                assert(tkeep(i as int) == !blank);
            }
            if !blank {
                proof {
                    lemma_views_push(seen_titles@, idn);
                }
                seen_titles.push(idn);
            }
            if fresh_title {
                proof {
                    lemma_track_views_push(out@, t);
                }
                out.push(t);
            }
        } else {
            proof {
                assert(!mix_keeps(ts, i as int));
                assert(!tkeep(i as int));
            }
        }
        i = i + 1;
    }
    proof {
        assert(i == ts.len());
    }
    out.truncate(limit);
    assert(track_views(out@) =~= take_at_most(select(ts, mkeep, ts.len() as int), limit as nat));
    out
}

/// The ids that the first-of-each-id selection keeps are non-empty and distinct.
proof fn lemma_first_ids_distinct(ids: Seq<Seq<char>>, n: int)
    requires
        0 <= n <= ids.len(),
    ensures
        forall|p: int| 0 <= p < select(ids, first_of_id_at(ids), n).len()
            ==> (#[trigger] select(ids, first_of_id_at(ids), n)[p]).len() > 0,
        forall|p: int, q: int| 0 <= p < q < select(ids, first_of_id_at(ids), n).len()
            ==> #[trigger] select(ids, first_of_id_at(ids), n)[p] != #[trigger] select(ids, first_of_id_at(ids), n)[q],
{
    let keep = first_of_id_at(ids);
    lemma_select_index(ids, keep, n);
    assert forall|p: int, q: int| 0 <= p < q < select(ids, keep, n).len()
        implies #[trigger] select(ids, keep, n)[p] != #[trigger] select(ids, keep, n)[q] by {
        let a = select_index(ids, keep, n, p);
        let b = select_index(ids, keep, n, q);
        assert(first_of_id(ids, b));
        assert(a < b);
    }
    assert forall|p: int| 0 <= p < select(ids, keep, n).len()
        implies (#[trigger] select(ids, keep, n)[p]).len() > 0 by {
        let a = select_index(ids, keep, n, p);
        assert(first_of_id(ids, a));
    }
}

/// A track list keeps each id once: every track of `dedupe_tracks` has a non-empty id that
/// no other track of it has, there are at most `limit` of them, and each is a track of the
/// input.
pub proof fn lemma_dedupe_tracks_distinct(ts: Seq<Track>, limit: nat)
    ensures
        spec_dedupe_tracks(ts, limit).len() <= limit,
        forall|i: int| 0 <= i < spec_dedupe_tracks(ts, limit).len()
            ==> (#[trigger] spec_dedupe_tracks(ts, limit)[i]).id.len() > 0 && ts.contains(spec_dedupe_tracks(ts, limit)[i]),
        forall|i: int, j: int| 0 <= i < j < spec_dedupe_tracks(ts, limit).len()
            ==> (#[trigger] spec_dedupe_tracks(ts, limit)[i]).id != (#[trigger] spec_dedupe_tracks(ts, limit)[j]).id,
{
    let ids = track_ids(ts);
    let keep = first_of_id_at(ids);
    let n = ts.len() as int;
    let sel = select(ts, keep, n);
    let r = spec_dedupe_tracks(ts, limit);
    lemma_select_map(ts, |t: Track| t.id, keep, n);
    lemma_first_ids_distinct(ids, n);
    lemma_select_index(ts, keep, n);
    assert forall|i: int| 0 <= i < r.len() implies (#[trigger] r[i]).id.len() > 0 && ts.contains(r[i]) by {
        assert(r[i] == sel[i]);
        assert(sel.map_values(|t: Track| t.id)[i] == sel[i].id);
        let k = select_index(ts, keep, n, i);
        assert(ts[k] == r[i]);
    }
    assert forall|i: int, j: int| 0 <= i < j < r.len() implies (#[trigger] r[i]).id != (#[trigger] r[j]).id by {
        assert(r[i] == sel[i] && r[j] == sel[j]);
        assert(sel.map_values(|t: Track| t.id)[i] == sel[i].id);
        assert(sel.map_values(|t: Track| t.id)[j] == sel[j].id);
    }
}

/// A playlist list keeps each id once, as `lemma_dedupe_tracks_distinct` says of tracks.
pub proof fn lemma_dedupe_playlists_distinct(ps: Seq<Playlist>, limit: nat)
    ensures
        spec_dedupe_playlists(ps, limit).len() <= limit,
        forall|i: int| 0 <= i < spec_dedupe_playlists(ps, limit).len()
            ==> (#[trigger] spec_dedupe_playlists(ps, limit)[i]).id.len() > 0 && ps.contains(spec_dedupe_playlists(ps, limit)[i]),
        forall|i: int, j: int| 0 <= i < j < spec_dedupe_playlists(ps, limit).len()
            ==> (#[trigger] spec_dedupe_playlists(ps, limit)[i]).id != (#[trigger] spec_dedupe_playlists(ps, limit)[j]).id,
{
    let ids = playlist_ids(ps);
    let keep = first_of_id_at(ids);
    let n = ps.len() as int;
    let sel = select(ps, keep, n);
    let r = spec_dedupe_playlists(ps, limit);
    lemma_select_map(ps, |p: Playlist| p.id, keep, n);
    lemma_first_ids_distinct(ids, n);
    lemma_select_index(ps, keep, n);
    assert forall|i: int| 0 <= i < r.len() implies (#[trigger] r[i]).id.len() > 0 && ps.contains(r[i]) by {
        assert(r[i] == sel[i]);
        assert(sel.map_values(|p: Playlist| p.id)[i] == sel[i].id);
        let k = select_index(ps, keep, n, i);
        assert(ps[k] == r[i]);
    }
    assert forall|i: int, j: int| 0 <= i < j < r.len() implies (#[trigger] r[i]).id != (#[trigger] r[j]).id by {
        assert(r[i] == sel[i] && r[j] == sel[j]);
        assert(sel.map_values(|p: Playlist| p.id)[i] == sel[i].id);
        assert(sel.map_values(|p: Playlist| p.id)[j] == sel[j].id);
    }
}

/// A mix keeps each id once and each title and artist once: its tracks have distinct,
/// non-empty ids, two tracks that both have a title or an artist differ in them, there are
/// at most `limit`, and each is a track of the input.
pub proof fn lemma_dedupe_mix_distinct(ts: Seq<Track>, limit: nat)
    ensures
        spec_dedupe_mix_tracks(ts, limit).len() <= limit,
        forall|i: int| 0 <= i < spec_dedupe_mix_tracks(ts, limit).len()
            ==> (#[trigger] spec_dedupe_mix_tracks(ts, limit)[i]).id.len() > 0 && ts.contains(spec_dedupe_mix_tracks(ts, limit)[i]),
        forall|i: int, j: int| 0 <= i < j < spec_dedupe_mix_tracks(ts, limit).len() ==> {
            let a = #[trigger] spec_dedupe_mix_tracks(ts, limit)[i];
            let b = #[trigger] spec_dedupe_mix_tracks(ts, limit)[j];
            a.id != b.id && (identity(b) != "::"@ ==> identity(a) != identity(b))
        },
{
    let keep = mix_keeps_at(ts);
    let n = ts.len() as int;
    let sel = select(ts, keep, n);
    let r = spec_dedupe_mix_tracks(ts, limit);
    lemma_select_index(ts, keep, n);
    assert forall|i: int| 0 <= i < r.len() implies (#[trigger] r[i]).id.len() > 0 && ts.contains(r[i]) by {
        assert(r[i] == sel[i]);
        let k = select_index(ts, keep, n, i);
        assert(mix_keeps(ts, k));
        assert(track_ids(ts)[k] == ts[k].id);
    }
    assert forall|i: int, j: int| 0 <= i < j < r.len() implies {
        let a = #[trigger] r[i];
        let b = #[trigger] r[j];
        a.id != b.id && (identity(b) != "::"@ ==> identity(a) != identity(b))
    } by {
        assert(r[i] == sel[i] && r[j] == sel[j]);
        let x = select_index(ts, keep, n, i);
        let y = select_index(ts, keep, n, j);
        assert(x < y);
        assert(mix_keeps(ts, x) && mix_keeps(ts, y));
        assert(track_ids(ts)[x] == ts[x].id && track_ids(ts)[y] == ts[y].id);
        if identity(ts[y]) != "::"@ {
            assert(first_of_id(track_ids(ts), x));
            assert(identity(ts[x]) != identity(ts[y]));
        }
    }
}

/// Keeping one track of each id loses no id: every track with a non-empty id has a track of
/// its id in the result, unless the result already holds `limit` tracks.
pub proof fn lemma_dedupe_tracks_keeps_ids(ts: Seq<Track>, limit: nat, i: int)
    requires
        0 <= i < ts.len(),
        ts[i].id.len() > 0,
    ensures
        spec_dedupe_tracks(ts, limit).len() == limit || exists|k: int|
            0 <= k < spec_dedupe_tracks(ts, limit).len() && (#[trigger] spec_dedupe_tracks(ts, limit)[k]).id == ts[i].id,
    decreases i,
{
    let ids = track_ids(ts);
    let keep = first_of_id_at(ids);
    let n = ts.len() as int;
    let sel = select(ts, keep, n);
    assert(ids[i] == ts[i].id);
    if exists|j: int| 0 <= j < i && ids[j] == ids[i] {
        let j = choose|j: int| 0 <= j < i && ids[j] == ids[i];
        assert(ids[j] == ts[j].id);
        lemma_dedupe_tracks_keeps_ids(ts, limit, j);
    } else {
        assert(keep(i));
        lemma_select_contains(ts, keep, n, ts[i]);
        assert(sel.contains(ts[i]));
        let r = spec_dedupe_tracks(ts, limit);
        if sel.len() <= limit {
            assert(r == sel);
            let k = choose|k: int| 0 <= k < sel.len() && sel[k] == ts[i];
            assert(r[k].id == ts[i].id);
        }
    }
}

} // verus!
