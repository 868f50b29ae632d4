//! Reading YouTube Music responses: tracks, playlists, shelves and the
//! pieces of them that the interface shows.
use vstd::prelude::*;
use crate::json::{path_list1, path_list2, path_string1, path_string2, path_string3, path_string4, as_str, as_u64, derefs, field, field_str, get, get_field_str, spec_traverse_list, spec_traverse_string, JsonValue};
use crate::models::{opt_view, lemma_playlist_views_append, lemma_playlist_views_push, lemma_track_views_push, playlist_views, track_views, Playlist, PlaylistPayload, Track, TrackPayload};
use crate::text::{chars_of, concat, find, push_str, split_char, split_windows, starts_with, string_of, window_find, windows_are, CharClass, spec_parse_u64, parse_u64_window, all_in, all_match, contains, str_eq, window_starts_with, trim, trim_window, vec_eq_str, strip_prefix, eq_ignore_ascii_case, window_eq_ignore_ascii_case};
use crate::ids::{insert_sorted, is_supported_playlist_id, spec_is_supported_playlist_id, strictly_ascending};
use crate::cookies::{lemma_views_push, views};

verus! {

/// The `(width, url)` of an object's own `url` string field, width 0 where
/// it has no integer `width`.
pub open spec fn own_thumbnail(data: JsonValue) -> Seq<(u64, Seq<char>)> {
    match field_str(data, "url"@) {
        Some(url) => seq![(thumbnail_width(data), url)],
        None => Seq::empty(),
    }
}

pub open spec fn thumbnail_width(data: JsonValue) -> u64 {
    match field(data, "width"@) {
        Some(w) => match as_u64(w) {
            Some(n) => n,
            None => 0,
        },
        None => 0,
    }
}

/// Every object with a `url` string in `data`, in document order.
pub open spec fn thumbnail_items(data: JsonValue) -> Seq<(u64, Seq<char>)>
    decreases data,
{
    match data {
        JsonValue::Array(items) => thumbnail_items_list(items@),
        JsonValue::Object(entries) => own_thumbnail(data) + thumbnail_items_entries(entries@),
        _ => Seq::empty(),
    }
}

pub open spec fn thumbnail_items_list(items: Seq<JsonValue>) -> Seq<(u64, Seq<char>)>
    decreases items,
{
    if items.len() == 0 {
        Seq::empty()
    } else {
        thumbnail_items_list(items.drop_last()) + thumbnail_items(items.last())
    }
}

pub open spec fn thumbnail_items_entries(entries: Seq<(String, JsonValue)>) -> Seq<(u64, Seq<char>)>
    decreases entries,
{
    if entries.len() == 0 {
        Seq::empty()
    } else {
        thumbnail_items_entries(entries.drop_last()) + thumbnail_items(entries.last().1)
    }
}

/// The widest item, the last of equally wide ones (`Iterator::max_by_key`).
pub open spec fn widest(items: Seq<(u64, Seq<char>)>) -> Option<(u64, Seq<char>)>
    decreases items.len(),
{
    if items.len() == 0 {
        None
    } else {
        match widest(items.drop_last()) {
            Some(b) => if items.last().0 >= b.0 {
                Some(items.last())
            } else {
                Some(b)
            },
            None => Some(items.last()),
        }
    }
}

pub open spec fn spec_best_thumbnail(data: JsonValue) -> Seq<char> {
    match widest(thumbnail_items(data)) {
        Some((_, url)) => url,
        None => Seq::empty(),
    }
}

pub open spec fn thumb_views(s: Seq<(u64, String)>) -> Seq<(u64, Seq<char>)> {
    s.map_values(|t: (u64, String)| (t.0, t.1@))
}

proof fn lemma_thumb_views_push(s: Seq<(u64, String)>, t: (u64, String))
    ensures
        thumb_views(s.push(t)) == thumb_views(s).push((t.0, t.1@)),
{
    assert(thumb_views(s.push(t)) =~= thumb_views(s).push((t.0, t.1@)));
}

fn thumbnail_width_exec(data: &JsonValue) -> (r: u64)
    ensures
        r == thumbnail_width(*data),
{
    match get(data, "width") {
        Some(w) => match w {
            JsonValue::Number(Some(n)) => *n,
            _ => 0,
        },
        None => 0,
    }
}

/// Appends to `out` the `(width, url)` of every object with a `url` string in `data`.
pub fn collect_thumbnail_items(data: &JsonValue, out: &mut Vec<(u64, String)>)
    ensures
        thumb_views(final(out)@) == thumb_views(old(out)@) + thumbnail_items(*data),
    decreases data,
{
    let ghost start = thumb_views(out@);
    match data {
        JsonValue::Array(items) => {
            let mut i: usize = 0;
            while i < items.len()
                invariant
                    0 <= i <= items.len(),
                    *data is Array,
                    (*data)->Array_0 == *items,
                    thumb_views(out@) == start + thumbnail_items_list(items@.take(i as int)),
                decreases items.len() - i,
            {
                assert(items@.take(i + 1).drop_last() =~= items@.take(i as int));
                proof {
                    let d = *data;
                    assert(decreases_to!(d => d->Array_0));
                    assert(decreases_to!(d->Array_0 => d->Array_0@));
                    assert(decreases_to!(items@ => items@[i as int]));
                }
                collect_thumbnail_items(&items[i], out);
                i = i + 1;
            }
            assert(items@.take(items.len() as int) =~= items@);
        },
        JsonValue::Object(entries) => {
            let ghost own = own_thumbnail(*data);
            match get_field_str(data, "url") {
                Some(url) => {
                    let w = thumbnail_width_exec(data);
                    let c = chars_of(url);
                    assert(c@.subrange(0, c@.len() as int) =~= c@);
                    let u = string_of(&c, 0, c.len());
                    proof {
                        lemma_thumb_views_push(out@, (w, u));
                    }
                    out.push((w, u));
                },
                None => {},
            }
            let mut i: usize = 0;
            while i < entries.len()
                invariant
                    0 <= i <= entries.len(),
                    *data is Object,
                    (*data)->Object_0 == *entries,
                    thumb_views(out@) == start + own + thumbnail_items_entries(entries@.take(i as int)),
                decreases entries.len() - i,
            {
                assert(entries@.take(i + 1).drop_last() =~= entries@.take(i as int));
                proof {
                    let d = *data;
                    let e = entries@[i as int];
                    assert(decreases_to!(d => d->Object_0));
                    assert(decreases_to!(d->Object_0 => d->Object_0@));
                    assert(decreases_to!(entries@ => e));
                    assert(decreases_to!(e => e.1));
                }
                collect_thumbnail_items(&entries[i].1, out);
                i = i + 1;
            }
            assert(entries@.take(entries.len() as int) =~= entries@);
        },
        _ => {
            assert(thumb_views(out@) =~= start + Seq::<(u64, Seq<char>)>::empty());
        },
    }
}

/// The url of the widest thumbnail anywhere in `data`, the last of equally
/// wide ones; empty if there is none.
pub fn best_thumbnail(data: &JsonValue) -> (r: String)
    ensures
        r@ == spec_best_thumbnail(*data),
{
    let mut items: Vec<(u64, String)> = Vec::new();
    collect_thumbnail_items(data, &mut items);
    assert(thumb_views(items@) =~= thumbnail_items(*data));
    let ghost ts = thumb_views(items@);
    let mut best: Option<usize> = None;
    let mut i: usize = 0;
    while i < items.len()
        invariant
            0 <= i <= items.len(),
            ts == thumb_views(items@),
            match best {
                Some(b) => b < i && widest(ts.take(i as int)) == Some(ts[b as int]),
                None => i == 0,
            },
        decreases items.len() - i,
    {
        assert(ts.take(i + 1).drop_last() =~= ts.take(i as int));
        assert(ts.take(i + 1).last() == ts[i as int]);
        assert(ts[i as int] == (items@[i as int].0, items@[i as int].1@));
        match best {
            Some(b) => {
                assert(ts[b as int] == (items@[b as int].0, items@[b as int].1@));
                if items[i].0 >= items[b].0 {
                    best = Some(i);
                }
            },
            None => {
                best = Some(i);
            },
        }
        i = i + 1;
    }
    assert(ts.take(items.len() as int) =~= ts);
    match best {
        Some(b) => {
            assert(ts[b as int] == (items@[b as int].0, items@[b as int].1@));
            items[b].1.clone()
        },
        None => String::new(),
    }
}


/// Seconds and place value after reading the `:`-separated parts from the
/// last one backwards, wrapping at 2^64 as unsigned arithmetic does in a
/// release build; `None` where a part is not a `u64`.
pub open spec fn duration_state(parts: Seq<Seq<char>>) -> Option<(u64, u64)>
    decreases parts.len(),
{
    if parts.len() == 0 {
        Some((0, 1))
    } else {
        match duration_state(parts.drop_first()) {
            Some((seconds, place)) => match spec_parse_u64(parts[0]) {
                Some(n) => Some(
                    (
                        vstd::wrapping::u64_specs::wrapping_add(
                            seconds,
                            vstd::wrapping::u64_specs::wrapping_mul(n, place),
                        ),
                        vstd::wrapping::u64_specs::wrapping_mul(place, 60),
                    ),
                ),
                None => None,
            },
            None => None,
        }
    }
}

/// Seconds of `h:m:s`, `m:s` or `s` text; 0 without text or with a part
/// that is not a number.
pub open spec fn spec_parse_duration(value: Option<Seq<char>>) -> u64 {
    match value {
        Some(v) => match duration_state(split_char(v, ':')) {
            Some((seconds, _)) => seconds,
            None => 0,
        },
        None => 0,
    }
}

/// Seconds of `h:m:s`, `m:s` or `s` text; 0 without text or with a part
/// that is not a number.
pub fn parse_duration(value: Option<&str>) -> (r: u64)
    ensures
        r == spec_parse_duration(
            match value {
                Some(v) => Some(v@),
                None => None,
            },
        ),
{
    let text = match value {
        Some(v) => v,
        None => return 0,
    };
    let v = chars_of(text);
    assert(v@.subrange(0, v@.len() as int) =~= v@);
    let parts = split_windows(&v, 0, v.len(), ':');
    let ghost ps = split_char(text@, ':');
    let mut seconds: u64 = 0;
    let mut place: u64 = 1;
    let mut k = parts.len();
    assert(ps.skip(ps.len() as int) =~= Seq::<Seq<char>>::empty());
    while k > 0
        invariant
            0 <= k <= parts.len(),
            v@ == text@,
            windows_are(v@, parts@, 0, v@.len() as int, ps),
            value == Some(text),
            ps == split_char(text@, ':'),
            duration_state(ps.skip(k as int)) == Some((seconds, place)),
        decreases k,
    {
        k = k - 1;
        let (a, b) = parts[k];
        assert(parts@[k as int] == (a, b));
        let ghost rest = ps.skip(k as int);
        assert(rest.drop_first() =~= ps.skip(k + 1));
        assert(rest[0] == ps[k as int]);
        match parse_u64_window(&v, a, b) {
            Some(n) => {
                seconds = seconds.wrapping_add(n.wrapping_mul(place));
                place = place.wrapping_mul(60);
            },
            None => {
                proof {
                    lemma_duration_state_none(ps, k as int);
                }
                return 0;
            },
        }
    }
    assert(ps.skip(0) =~= ps);
    seconds
}

proof fn lemma_duration_state_none(ps: Seq<Seq<char>>, k: int)
    requires
        0 <= k <= ps.len(),
        duration_state(ps.skip(k)) is None,
    ensures
        duration_state(ps) is None,
    decreases k,
{
    if k > 0 {
        let prev = ps.skip(k - 1);
        assert(prev.drop_first() =~= ps.skip(k));
        lemma_duration_state_none(ps, k - 1);
    } else {
        assert(ps.skip(0) =~= ps);
    }
}


pub open spec fn spec_is_artist(value: JsonValue) -> bool {
    let page = spec_traverse_string(value, seq!["pageType"@]);
    page == "MUSIC_PAGE_TYPE_USER_CHANNEL"@ || page == "MUSIC_PAGE_TYPE_ARTIST"@
}

pub open spec fn spec_is_album(value: JsonValue) -> bool {
    spec_traverse_string(value, seq!["pageType"@]) == "MUSIC_PAGE_TYPE_ALBUM"@
}

/// The text of the `text` string field, or the empty text.
pub open spec fn own_text(value: JsonValue) -> Seq<char> {
    match field_str(value, "text"@) {
        Some(t) => t,
        None => Seq::empty(),
    }
}

pub open spec fn spec_is_duration(value: JsonValue) -> bool {
    let text = own_text(value);
    text.len() > 0 && all_in(text, CharClass::DigitOrColon) && contains(text, ":"@)
}

pub open spec fn spec_is_title(value: JsonValue) -> bool {
    starts_with(spec_traverse_string(value, seq!["musicVideoType"@]), "MUSIC_VIDEO_TYPE_"@)
}

/// Whether a run's page type is that of an artist or a user channel.
pub fn is_artist(value: &JsonValue) -> (r: bool)
    ensures
        r == spec_is_artist(*value),
{
    let page = path_string1(value, "pageType");
    str_eq(page.as_str(), "MUSIC_PAGE_TYPE_USER_CHANNEL") || str_eq(page.as_str(), "MUSIC_PAGE_TYPE_ARTIST")
}

/// Whether a run's page type is that of an album.
pub fn is_album(value: &JsonValue) -> (r: bool)
    ensures
        r == spec_is_album(*value),
{
    let page = path_string1(value, "pageType");
    str_eq(page.as_str(), "MUSIC_PAGE_TYPE_ALBUM")
}

fn own_text_exec(value: &JsonValue) -> (r: Vec<char>)
    ensures
        r@ == own_text(*value),
{
    match get_field_str(value, "text") {
        Some(t) => chars_of(t),
        None => Vec::new(),
    }
}

/// Whether a run's own text is a duration such as `3:21`.
pub fn is_duration(value: &JsonValue) -> (r: bool)
    ensures
        r == spec_is_duration(*value),
{
    let t = own_text_exec(value);
    assert(t@.subrange(0, t@.len() as int) =~= t@);
    t.len() > 0 && all_match(&t, 0, t.len(), &CharClass::DigitOrColon) && window_find(
        &t,
        0,
        t.len(),
        ":",
    ).is_some()
}

/// Whether a run belongs to a music video of some type.
pub fn is_title(value: &JsonValue) -> (r: bool)
    ensures
        r == spec_is_title(*value),
{
    let kind = path_string1(value, "musicVideoType");
    let v = chars_of(kind.as_str());
    assert(v@.subrange(0, v@.len() as int) =~= v@);
    window_starts_with(&v, 0, v.len(), "MUSIC_VIDEO_TYPE_")
}

/// What a column of a list item is recognized as.
pub enum ColumnKind {
    Title,
    Artist,
    Album,
    Duration,
}

pub open spec fn column_is(kind: ColumnKind, value: JsonValue) -> bool {
    match kind {
        ColumnKind::Title => spec_is_title(value),
        ColumnKind::Artist => spec_is_artist(value),
        ColumnKind::Album => spec_is_album(value),
        ColumnKind::Duration => spec_is_duration(value),
    }
}

/// The first column of the kind.
pub open spec fn first_column(columns: Seq<JsonValue>, kind: ColumnKind) -> Option<JsonValue>
    decreases columns.len(),
{
    if columns.len() == 0 {
        None
    } else {
        match first_column(columns.drop_last(), kind) {
            Some(v) => Some(v),
            None => if column_is(kind, columns.last()) {
                Some(columns.last())
            } else {
                None
            },
        }
    }
}

proof fn lemma_first_column_prefix(columns: Seq<JsonValue>, kind: ColumnKind, m: int)
    requires
        0 <= m <= columns.len(),
        first_column(columns.take(m), kind) is Some,
    ensures
        first_column(columns, kind) == first_column(columns.take(m), kind),
    decreases columns.len(),
{
    if m == columns.len() {
        assert(columns.take(m) =~= columns);
    } else {
        assert(columns.drop_last().take(m) =~= columns.take(m));
        lemma_first_column_prefix(columns.drop_last(), kind, m);
    }
}

fn column_is_exec(kind: &ColumnKind, value: &JsonValue) -> (r: bool)
    ensures
        r == column_is(*kind, *value),
{
    match kind {
        ColumnKind::Title => is_title(value),
        ColumnKind::Artist => is_artist(value),
        ColumnKind::Album => is_album(value),
        ColumnKind::Duration => is_duration(value),
    }
}

fn find_column<'a>(columns: &Vec<&'a JsonValue>, kind: ColumnKind) -> (r: Option<&'a JsonValue>)
    ensures
        r matches Some(v) ==> first_column(derefs(columns@), kind) == Some(*v),
        r is None ==> first_column(derefs(columns@), kind) is None,
{
    let ghost cs = derefs(columns@);
    let mut i: usize = 0;
    while i < columns.len()
        invariant
            0 <= i <= columns.len(),
            cs == derefs(columns@),
            first_column(cs.take(i as int), kind) is None,
        decreases columns.len() - i,
    {
        assert(cs.take(i + 1).drop_last() =~= cs.take(i as int));
        assert(cs.take(i + 1).last() == *columns@[i as int]);
        if column_is_exec(&kind, columns[i]) {
            proof {
                lemma_first_column_prefix(cs, kind, i + 1);
            }
            return Some(columns[i]);
        }
        i = i + 1;
    }
    assert(cs.take(columns.len() as int) =~= cs);
    None
}

/// The id in a thumbnail url of the form `.../vi/<id>/...`, or the empty text.
pub open spec fn thumbnail_video_id(url: Seq<char>) -> Seq<char> {
    match find(url, "/vi/"@) {
        Some(i) => {
            let tail = url.skip(i + 4);
            match find(tail, "/"@) {
                Some(j) => tail.take(j),
                None => tail,
            }
        },
        None => Seq::empty(),
    }
}

pub fn thumbnail_video_id_exec(url: &str) -> (r: String)
    ensures
        r@ == thumbnail_video_id(url@),
{
    proof {
        reveal_strlit("/vi/");
        reveal_strlit("/");
    }
    let v = chars_of(url);
    assert(v@.subrange(0, v@.len() as int) =~= v@);
    match window_find(&v, 0, v.len(), "/vi/") {
        Some(i) => {
            let start = i + 4;
            let ghost tail = url@.skip(start as int);
            assert(v@.subrange(start as int, v@.len() as int) =~= tail);
            match window_find(&v, start, v.len(), "/") {
                Some(j) => {
                    assert(tail.take(j - start) =~= v@.subrange(start as int, j as int));
                    string_of(&v, start, j)
                },
                None => string_of(&v, start, v.len()),
            }
        },
        None => String::new(),
    }
}

/// The video id of a list item: that of the playlist entry for songs or of
/// the play button otherwise, else any `videoId`, else the one in its
/// thumbnail url.
pub open spec fn item_video_id(item: JsonValue, kind: Seq<char>) -> Seq<char> {
    let first = if kind == "SONG"@ {
        spec_traverse_string(item, seq!["playlistItemData"@, "videoId"@])
    } else {
        spec_traverse_string(item, seq!["playNavigationEndpoint"@, "videoId"@])
    };
    if first.len() > 0 {
        first
    } else {
        let any = spec_traverse_string(item, seq!["videoId"@]);
        if any.len() > 0 {
            any
        } else {
            thumbnail_video_id(spec_best_thumbnail(item))
        }
    }
}

pub open spec fn nonempty(s: Seq<char>) -> Option<Seq<char>> {
    if s.len() > 0 {
        Some(s)
    } else {
        None
    }
}

pub open spec fn watch_url(id: Seq<char>) -> Seq<char> {
    "https://music.youtube.com/watch?v="@ + id
}

pub open spec fn text_of(value: JsonValue) -> Seq<char> {
    spec_traverse_string(value, seq!["text"@])
}

/// The track of a `musicResponsiveListItemRenderer`.
pub open spec fn spec_parse_track_item(item: JsonValue, kind: Seq<char>) -> Option<Track> {
    let columns = spec_traverse_list(item, seq!["flexColumns"@, "runs"@]) + spec_traverse_list(
        item,
        seq!["fixedColumns"@, "runs"@],
    );
    let title = match first_column(columns, ColumnKind::Title) {
        Some(v) => v,
        None => if columns.len() > 0 {
            columns[0]
        } else {
            item
        },
    };
    let artist = match first_column(columns, ColumnKind::Artist) {
        Some(v) => v,
        None => if columns.len() > 1 {
            columns[1]
        } else {
            item
        },
    };
    let album = match first_column(columns, ColumnKind::Album) {
        Some(v) => text_of(v),
        None => Seq::empty(),
    };
    let duration = match first_column(columns, ColumnKind::Duration) {
        Some(v) => field_str(v, "text"@),
        None => None,
    };
    let id = item_video_id(item, kind);
    if id.len() == 0 {
        None
    } else {
        Some(
            Track {
                id: id,
                kind: kind,
                title: text_of(title),
                artist: text_of(artist),
                artist_id: nonempty(spec_traverse_string(artist, seq!["browseId"@])),
                album: album,
                duration: spec_parse_duration(duration),
                thumbnail: spec_best_thumbnail(item),
                url: watch_url(id),
                playlist_id: Seq::empty(),
                playlist_params: Seq::empty(),
            },
        )
    }
}

fn nonempty_exec(s: String) -> (r: Option<String>)
    ensures
        opt_view(r) == nonempty(s@),
{
    if s.as_str().unicode_len() > 0 {
        Some(s)
    } else {
        None
    }
}

fn watch_url_exec(id: &String) -> (r: String)
    ensures
        r@ == watch_url(id@),
{
    let mut url = String::new();
    push_str(&mut url, "https://music.youtube.com/watch?v=");
    push_str(&mut url, id.as_str());
    url
}

fn copy_string(s: &str) -> (r: String)
    ensures
        r@ == s@,
{
    let v = chars_of(s);
    assert(v@.subrange(0, v@.len() as int) =~= v@);
    string_of(&v, 0, v.len())
}

fn item_video_id_exec(item: &JsonValue, kind: &str) -> (r: String)
    ensures
        r@ == item_video_id(*item, kind@),
{
    let first = if str_eq(kind, "SONG") {
        path_string2(item, "playlistItemData", "videoId")
    } else {
        path_string2(item, "playNavigationEndpoint", "videoId")
    };
    if first.as_str().unicode_len() > 0 {
        return first;
    }
    let any = path_string1(item, "videoId");
    if any.as_str().unicode_len() > 0 {
        return any;
    }
    let thumb = best_thumbnail(item);
    thumbnail_video_id_exec(thumb.as_str())
}

/// The track of a `musicResponsiveListItemRenderer`, where it has a video id.
pub fn parse_track_item(item: &JsonValue, kind: &str) -> (r: Option<TrackPayload>)
    ensures
        r matches Some(t) ==> spec_parse_track_item(*item, kind@) == Some(t@),
        r is None ==> spec_parse_track_item(*item, kind@) is None,
{
    let mut columns = path_list2(item, "flexColumns", "runs");
    let mut fixed = path_list2(item, "fixedColumns", "runs");
    let ghost flex_v = derefs(columns@);
    let ghost fixed_v = derefs(fixed@);
    columns.append(&mut fixed);
    assert(derefs(columns@) =~= flex_v + fixed_v);
    let ghost cs = derefs(columns@);
    let title = match find_column(&columns, ColumnKind::Title) {
        Some(v) => v,
        None => if columns.len() > 0 {
            columns[0]
        } else {
            item
        },
    };
    let artist = match find_column(&columns, ColumnKind::Artist) {
        Some(v) => v,
        None => if columns.len() > 1 {
            columns[1]
        } else {
            item
        },
    };
    let album = match find_column(&columns, ColumnKind::Album) {
        Some(v) => path_string1(v, "text"),
        None => String::new(),
    };
    let duration_text = match find_column(&columns, ColumnKind::Duration) {
        Some(v) => get_field_str(v, "text"),
        None => None,
    };
    let id = item_video_id_exec(item, kind);
    if id.as_str().unicode_len() == 0 {
        return None;
    }
    let duration = parse_duration(duration_text);
    let url = watch_url_exec(&id);
    let t = TrackPayload {
        id: id,
        kind: copy_string(kind),
        title: path_string1(title, "text"),
        artist: path_string1(artist, "text"),
        artist_id: nonempty_exec(path_string1(artist, "browseId")),
        album: album,
        duration: duration,
        thumbnail: best_thumbnail(item),
        url: url,
        playlist_id: String::new(),
        playlist_params: String::new(),
    };
    Some(t)
}


/// The track of a `playlistPanelVideoRenderer`, the queue of a mix.
pub open spec fn spec_parse_playlist_panel_track_item(item: JsonValue) -> Option<Track> {
    let watch_id = spec_traverse_string(item, seq!["watchEndpoint"@, "videoId"@]);
    let id = if watch_id.len() > 0 {
        watch_id
    } else {
        spec_traverse_string(item, seq!["videoId"@])
    };
    let title = spec_traverse_string(item, seq!["title"@, "runs"@, "text"@]);
    let artist = spec_traverse_string(item, seq!["longBylineText"@, "runs"@, "text"@]);
    let duration_text = spec_traverse_string(item, seq!["lengthText"@, "runs"@, "text"@]);
    if id.len() == 0 || title.len() == 0 {
        None
    } else {
        Some(
            Track {
                id: id,
                kind: "VIDEO"@,
                title: title,
                artist: if artist.len() == 0 {
                    "YouTube Music"@
                } else {
                    artist
                },
                artist_id: nonempty(spec_traverse_string(item, seq!["longBylineText"@, "browseId"@])),
                album: Seq::empty(),
                duration: spec_parse_duration(nonempty(duration_text)),
                thumbnail: spec_best_thumbnail(item),
                url: watch_url(id),
                playlist_id: spec_traverse_string(item, seq!["watchEndpoint"@, "playlistId"@]),
                playlist_params: spec_traverse_string(item, seq!["watchEndpoint"@, "params"@]),
            },
        )
    }
}

/// The track of a `playlistPanelVideoRenderer`, where it has a video id and a title.
pub fn parse_playlist_panel_track_item(item: &JsonValue) -> (r: Option<TrackPayload>)
    ensures
        r matches Some(t) ==> spec_parse_playlist_panel_track_item(*item) == Some(t@),
        r is None ==> spec_parse_playlist_panel_track_item(*item) is None,
{
    let mut id = path_string2(item, "watchEndpoint", "videoId");
    if id.as_str().unicode_len() == 0 {
        id = path_string1(item, "videoId");
    }
    if id.as_str().unicode_len() == 0 {
        return None;
    }
    let title = path_string3(item, "title", "runs", "text");
    if title.as_str().unicode_len() == 0 {
        return None;
    }
    let artist = path_string3(item, "longBylineText", "runs", "text");
    let duration_text = path_string3(item, "lengthText", "runs", "text");
    let duration = if duration_text.as_str().unicode_len() > 0 {
        parse_duration(Some(duration_text.as_str()))
    } else {
        parse_duration(None)
    };
    let url = watch_url_exec(&id);
    Some(
        TrackPayload {
            id: id,
            kind: copy_string("VIDEO"),
            title: title,
            artist: if artist.as_str().unicode_len() == 0 {
                copy_string("YouTube Music")
            } else {
                artist
            },
            artist_id: nonempty_exec(path_string2(item, "longBylineText", "browseId")),
            album: String::new(),
            duration: duration,
            thumbnail: best_thumbnail(item),
            url: url,
            playlist_id: path_string2(item, "watchEndpoint", "playlistId"),
            playlist_params: path_string2(item, "watchEndpoint", "params"),
        },
    )
}

pub open spec fn option_seq<A>(o: Option<A>) -> Seq<A> {
    match o {
        Some(x) => seq![x],
        None => Seq::empty(),
    }
}

/// The tracks of the list items anywhere in a response.
pub open spec fn spec_parse_track_items(data: JsonValue, kind: Seq<char>) -> Seq<Track> {
    concat(
        spec_traverse_list(data, seq!["musicResponsiveListItemRenderer"@]).map_values(
            |item: JsonValue| option_seq(spec_parse_track_item(item, kind)),
        ),
    )
}

/// The tracks of the list items anywhere in a response.
pub fn parse_track_items(data: &JsonValue, kind: &str) -> (r: Vec<TrackPayload>)
    ensures
        track_views(r@) == spec_parse_track_items(*data, kind@),
{
    let items = path_list1(data, "musicResponsiveListItemRenderer");
    let ghost vs = derefs(items@);
    let ghost fs = vs.map_values(|item: JsonValue| option_seq(spec_parse_track_item(item, kind@)));
    let mut out: Vec<TrackPayload> = Vec::new();
    let mut i: usize = 0;
    while i < items.len()
        invariant
            0 <= i <= items.len(),
            vs == derefs(items@),
            fs == vs.map_values(|item: JsonValue| option_seq(spec_parse_track_item(item, kind@))),
            track_views(out@) == concat(fs.take(i as int)),
        decreases items.len() - i,
    {
        assert(fs.take(i + 1).drop_last() =~= fs.take(i as int));
        assert(vs[i as int] == *items@[i as int]);
        match parse_track_item(items[i], kind) {
            Some(t) => {
                proof {
                    lemma_track_views_push(out@, t);
                }
                out.push(t);
            },
            None => {},
        }
        i = i + 1;
        assert(track_views(out@) =~= concat(fs.take(i as int)));
    }
    assert(fs.take(items.len() as int) =~= fs);
    out
}

/// A subtitle run that names something other than a type, a separator or a duration.
pub open spec fn is_named_run(value: JsonValue) -> bool {
    let text = own_text(value);
    &&& trim(text).len() > 0
    &&& trim(text) != "\u{2022}"@
    &&& !spec_is_duration(value)
    &&& text != "Song"@
    &&& text != "Video"@
    &&& text != "Album"@
    &&& text != "Playlist"@
}

/// The first value that `is_named_run`.
pub open spec fn first_named_run(values: Seq<JsonValue>) -> Option<JsonValue>
    decreases values.len(),
{
    if values.len() == 0 {
        None
    } else {
        match first_named_run(values.drop_last()) {
            Some(v) => Some(v),
            None => if is_named_run(values.last()) {
                Some(values.last())
            } else {
                None
            },
        }
    }
}

/// The artist of a two-row item: its first artist run, else its first named run.
pub open spec fn spec_subtitle_artist(item: JsonValue) -> Seq<char> {
    let runs = spec_traverse_list(item, seq!["subtitle"@, "runs"@]);
    match first_column(runs, ColumnKind::Artist) {
        Some(v) => text_of(v),
        None => match first_named_run(runs) {
            Some(v) => text_of(v),
            None => Seq::empty(),
        },
    }
}

fn is_named_run_exec(value: &JsonValue) -> (r: bool)
    ensures
        r == is_named_run(*value),
{
    let text = own_text_exec(value);
    let (a, b) = trim_window(&text, 0, text.len(), &CharClass::Whitespace);
    assert(text@.subrange(0, text@.len() as int) =~= text@);
    a < b && !vec_eq_str(&text, a, b, "\u{2022}") && !is_duration(value) && !vec_eq_str(
        &text,
        0,
        text.len(),
        "Song",
    ) && !vec_eq_str(&text, 0, text.len(), "Video") && !vec_eq_str(&text, 0, text.len(), "Album")
        && !vec_eq_str(&text, 0, text.len(), "Playlist")
}

proof fn lemma_first_named_run_prefix(values: Seq<JsonValue>, m: int)
    requires
        0 <= m <= values.len(),
        first_named_run(values.take(m)) is Some,
    ensures
        first_named_run(values) == first_named_run(values.take(m)),
    decreases values.len(),
{
    if m == values.len() {
        assert(values.take(m) =~= values);
    } else {
        assert(values.drop_last().take(m) =~= values.take(m));
        lemma_first_named_run_prefix(values.drop_last(), m);
    }
}

/// The artist of a two-row item: its first artist run, else its first named run.
pub fn subtitle_artist(item: &JsonValue) -> (r: String)
    ensures
        r@ == spec_subtitle_artist(*item),
{
    let runs = path_list2(item, "subtitle", "runs");
    match find_column(&runs, ColumnKind::Artist) {
        Some(v) => return path_string1(v, "text"),
        None => {},
    }
    let ghost vs = derefs(runs@);
    let mut i: usize = 0;
    while i < runs.len()
        invariant
            0 <= i <= runs.len(),
            vs == derefs(runs@),
            vs == spec_traverse_list(*item, seq!["subtitle"@, "runs"@]),
            first_column(vs, ColumnKind::Artist) is None,
            first_named_run(vs.take(i as int)) is None,
        decreases runs.len() - i,
    {
        assert(vs.take(i + 1).drop_last() =~= vs.take(i as int));
        assert(vs.take(i + 1).last() == *runs@[i as int]);
        if is_named_run_exec(runs[i]) {
            proof {
                lemma_first_named_run_prefix(vs, i + 1);
            }
            return path_string1(runs[i], "text");
        }
        i = i + 1;
    }
    assert(vs.take(runs.len() as int) =~= vs);
    String::new()
}

/// The track of a `musicTwoRowItemRenderer` on the home page.
pub open spec fn spec_parse_two_row_track_item(item: JsonValue) -> Option<Track> {
    let id = spec_traverse_string(item, seq!["watchEndpoint"@, "videoId"@]);
    let title = spec_traverse_string(item, seq!["title"@, "runs"@, "text"@]);
    if id.len() == 0 || title.len() == 0 {
        None
    } else {
        Some(
            Track {
                id: id,
                kind: if spec_traverse_string(item, seq!["musicVideoType"@])
                    == "MUSIC_VIDEO_TYPE_ATV"@ {
                    "SONG"@
                } else {
                    "VIDEO"@
                },
                title: title,
                artist: spec_subtitle_artist(item),
                artist_id: nonempty(spec_traverse_string(item, seq!["browseId"@])),
                album: Seq::empty(),
                duration: 0,
                thumbnail: spec_best_thumbnail(item),
                url: watch_url(id),
                playlist_id: spec_traverse_string(item, seq!["watchEndpoint"@, "playlistId"@]),
                playlist_params: spec_traverse_string(item, seq!["watchEndpoint"@, "params"@]),
            },
        )
    }
}

/// The track of a `musicTwoRowItemRenderer`, where it has a video id and a title.
pub fn parse_two_row_track_item(item: &JsonValue) -> (r: Option<TrackPayload>)
    ensures
        r matches Some(t) ==> spec_parse_two_row_track_item(*item) == Some(t@),
        r is None ==> spec_parse_two_row_track_item(*item) is None,
{
    let id = path_string2(item, "watchEndpoint", "videoId");
    if id.as_str().unicode_len() == 0 {
        return None;
    }
    let title = path_string3(item, "title", "runs", "text");
    if title.as_str().unicode_len() == 0 {
        return None;
    }
    let video_type = path_string1(item, "musicVideoType");
    let kind = if str_eq(video_type.as_str(), "MUSIC_VIDEO_TYPE_ATV") {
        copy_string("SONG")
    } else {
        copy_string("VIDEO")
    };
    let url = watch_url_exec(&id);
    Some(
        TrackPayload {
            id: id,
            kind: kind,
            title: title,
            artist: subtitle_artist(item),
            artist_id: nonempty_exec(path_string1(item, "browseId")),
            album: String::new(),
            duration: 0,
            thumbnail: best_thumbnail(item),
            url: url,
            playlist_id: path_string2(item, "watchEndpoint", "playlistId"),
            playlist_params: path_string2(item, "watchEndpoint", "params"),
        },
    )
}

/// The tracks of the two-row items anywhere in a response.
pub open spec fn two_row_tracks(data: JsonValue) -> Seq<Track> {
    concat(
        spec_traverse_list(data, seq!["musicTwoRowItemRenderer"@]).map_values(
            |item: JsonValue| option_seq(spec_parse_two_row_track_item(item)),
        ),
    )
}

/// The list-item songs, then the two-row tracks, of a home shelf.
pub open spec fn spec_parse_home_track_items(data: JsonValue) -> Seq<Track> {
    spec_parse_track_items(data, "SONG"@) + two_row_tracks(data)
}

/// The list-item songs, then the two-row tracks, of a home shelf.
pub fn parse_home_track_items(data: &JsonValue) -> (r: Vec<TrackPayload>)
    ensures
        track_views(r@) == spec_parse_home_track_items(*data),
{
    let mut out = parse_track_items(data, "SONG");
    let items = path_list1(data, "musicTwoRowItemRenderer");
    let ghost head = track_views(out@);
    let ghost vs = derefs(items@);
    let ghost fs = vs.map_values(|item: JsonValue| option_seq(spec_parse_two_row_track_item(item)));
    let mut i: usize = 0;
    assert(fs.take(0) =~= Seq::<Seq<Track>>::empty());
    assert(track_views(out@) =~= head + concat(fs.take(0)));
    while i < items.len()
        invariant
            0 <= i <= items.len(),
            vs == derefs(items@),
            fs == vs.map_values(|item: JsonValue| option_seq(spec_parse_two_row_track_item(item))),
            track_views(out@) == head + concat(fs.take(i as int)),
        decreases items.len() - i,
    {
        assert(fs.take(i + 1).drop_last() =~= fs.take(i as int));
        assert(vs[i as int] == *items@[i as int]);
        match parse_two_row_track_item(items[i]) {
            Some(t) => {
                proof {
                    lemma_track_views_push(out@, t);
                }
                out.push(t);
            },
            None => {},
        }
        i = i + 1;
        assert(track_views(out@) =~= head + concat(fs.take(i as int)));
    }
    assert(fs.take(items.len() as int) =~= fs);
    out
}


pub open spec fn playlist_url(id: Seq<char>) -> Seq<char> {
    "https://music.youtube.com/playlist?list="@ + id
}

/// The playlist id of an item: its `playlistId`, else its `browseId`,
/// without a leading `VL`.
pub open spec fn item_playlist_id(item: JsonValue) -> Seq<char> {
    let pid = spec_traverse_string(item, seq!["playlistId"@]);
    let id = if pid.len() > 0 {
        pid
    } else {
        spec_traverse_string(item, seq!["browseId"@])
    };
    match strip_prefix(id, "VL"@) {
        Some(rest) => rest,
        None => id,
    }
}

/// The playlist of an item with a title and a supported playlist id.
pub open spec fn spec_parse_playlist_item(item: JsonValue) -> Option<Playlist> {
    let title = spec_traverse_string(item, seq!["title"@, "runs"@, "text"@]);
    let id = item_playlist_id(item);
    if title.len() == 0 || !spec_is_supported_playlist_id(id) {
        None
    } else {
        Some(
            Playlist {
                id: id,
                title: title,
                thumbnail: spec_best_thumbnail(item),
                url: playlist_url(id),
            },
        )
    }
}

/// The playlist of an item with a title and a supported playlist id.
pub fn parse_playlist_item(item: &JsonValue) -> (r: Option<PlaylistPayload>)
    ensures
        r matches Some(p) ==> spec_parse_playlist_item(*item) == Some(p@),
        r is None ==> spec_parse_playlist_item(*item) is None,
{
    proof {
        reveal_strlit("VL");
    }
    let title = path_string3(item, "title", "runs", "text");
    let mut raw = path_string1(item, "playlistId");
    if raw.as_str().unicode_len() == 0 {
        raw = path_string1(item, "browseId");
    }
    let v = chars_of(raw.as_str());
    assert(v@.subrange(0, v@.len() as int) =~= v@);
    let id = if window_starts_with(&v, 0, v.len(), "VL") {
        assert(v@.skip(2) =~= v@.subrange(2, v@.len() as int));
        string_of(&v, 2, v.len())
    } else {
        raw
    };
    if title.as_str().unicode_len() == 0 || !is_supported_playlist_id(id.as_str()) {
        return None;
    }
    let mut url = String::new();
    push_str(&mut url, "https://music.youtube.com/playlist?list=");
    push_str(&mut url, id.as_str());
    Some(PlaylistPayload { id: id, title: title, thumbnail: best_thumbnail(item), url: url })
}

pub open spec fn playlists_of(values: Seq<JsonValue>) -> Seq<Playlist> {
    concat(values.map_values(|item: JsonValue| option_seq(spec_parse_playlist_item(item))))
}

/// The playlists of the two-row items, then of the list items, anywhere in a response.
pub open spec fn spec_parse_playlist_items(data: JsonValue) -> Seq<Playlist> {
    playlists_of(spec_traverse_list(data, seq!["musicTwoRowItemRenderer"@])) + playlists_of(
        spec_traverse_list(data, seq!["musicResponsiveListItemRenderer"@]),
    )
}

fn push_playlists(items: &Vec<&JsonValue>, out: &mut Vec<PlaylistPayload>)
    ensures
        playlist_views(final(out)@) == playlist_views(old(out)@) + playlists_of(derefs(items@)),
{
    let ghost head = playlist_views(out@);
    let ghost vs = derefs(items@);
    let ghost fs = vs.map_values(|item: JsonValue| option_seq(spec_parse_playlist_item(item)));
    assert(fs.take(0) =~= Seq::<Seq<Playlist>>::empty());
    assert(playlist_views(out@) =~= head + concat(fs.take(0)));
    let mut i: usize = 0;
    while i < items.len()
        invariant
            0 <= i <= items.len(),
            vs == derefs(items@),
            fs == vs.map_values(|item: JsonValue| option_seq(spec_parse_playlist_item(item))),
            playlist_views(out@) == head + concat(fs.take(i as int)),
        decreases items.len() - i,
    {
        assert(fs.take(i + 1).drop_last() =~= fs.take(i as int));
        assert(vs[i as int] == *items@[i as int]);
        match parse_playlist_item(items[i]) {
            Some(p) => {
                proof {
                    lemma_playlist_views_push(out@, p);
                }
                out.push(p);
            },
            None => {},
        }
        i = i + 1;
        assert(playlist_views(out@) =~= head + concat(fs.take(i as int)));
    }
    assert(fs.take(items.len() as int) =~= fs);
}

/// The playlists of the two-row items, then of the list items, anywhere in a response.
pub fn parse_playlist_items(data: &JsonValue) -> (r: Vec<PlaylistPayload>)
    ensures
        playlist_views(r@) == spec_parse_playlist_items(*data),
{
    let mut out: Vec<PlaylistPayload> = Vec::new();
    let two_row = path_list1(data, "musicTwoRowItemRenderer");
    push_playlists(&two_row, &mut out);
    let list = path_list1(data, "musicResponsiveListItemRenderer");
    push_playlists(&list, &mut out);
    assert(playlist_views(out@) =~= spec_parse_playlist_items(*data));
    out
}

/// The title of a carousel shelf: that of its basic header, else of its header.
pub open spec fn spec_carousel_title(carousel: JsonValue) -> Seq<char> {
    let title = spec_traverse_string(
        carousel,
        seq!["musicCarouselShelfBasicHeaderRenderer"@, "title"@, "runs"@, "text"@],
    );
    if title.len() == 0 {
        spec_traverse_string(carousel, seq!["header"@, "title"@, "runs"@, "text"@])
    } else {
        title
    }
}

/// The title of a carousel shelf: that of its basic header, else of its header.
pub fn carousel_title(carousel: &JsonValue) -> (r: String)
    ensures
        r@ == spec_carousel_title(*carousel),
{
    let title = path_string4(carousel, "musicCarouselShelfBasicHeaderRenderer", "title", "runs", "text");
    if title.as_str().unicode_len() == 0 {
        path_string4(carousel, "header", "title", "runs", "text")
    } else {
        title
    }
}

/// Whether a carousel is titled `Playlists` in any ASCII case.
pub open spec fn is_playlists_carousel(carousel: JsonValue) -> bool {
    eq_ignore_ascii_case(spec_carousel_title(carousel), "playlists"@)
}

fn is_playlists_carousel_exec(carousel: &JsonValue) -> (r: bool)
    ensures
        r == is_playlists_carousel(*carousel),
{
    let title = carousel_title(carousel);
    let v = chars_of(title.as_str());
    let p = chars_of("playlists");
    assert(v@.subrange(0, v@.len() as int) =~= v@);
    window_eq_ignore_ascii_case(&v, 0, v.len(), &p)
}

/// The playlists in the `Playlists` carousels of a channel page.
pub open spec fn spec_parse_public_channel_playlists(data: JsonValue) -> Seq<Playlist> {
    concat(
        spec_traverse_list(data, seq!["musicCarouselShelfRenderer"@]).map_values(
            |c: JsonValue| if is_playlists_carousel(c) {
                spec_parse_playlist_items(c)
            } else {
                Seq::empty()
            },
        ),
    )
}

/// The playlists in the `Playlists` carousels of a channel page.
pub fn parse_public_channel_playlists(data: &JsonValue) -> (r: Vec<PlaylistPayload>)
    ensures
        playlist_views(r@) == spec_parse_public_channel_playlists(*data),
{
    let carousels = path_list1(data, "musicCarouselShelfRenderer");
    let ghost vs = derefs(carousels@);
    let ghost fs = vs.map_values(
        |c: JsonValue| if is_playlists_carousel(c) {
            spec_parse_playlist_items(c)
        } else {
            Seq::empty()
        },
    );
    let mut out: Vec<PlaylistPayload> = Vec::new();
    let mut i: usize = 0;
    while i < carousels.len()
        invariant
            0 <= i <= carousels.len(),
            vs == derefs(carousels@),
            fs == vs.map_values(
                |c: JsonValue| if is_playlists_carousel(c) {
                    spec_parse_playlist_items(c)
                } else {
                    Seq::empty()
                },
            ),
            playlist_views(out@) == concat(fs.take(i as int)),
        decreases carousels.len() - i,
    {
        assert(fs.take(i + 1).drop_last() =~= fs.take(i as int));
        assert(vs[i as int] == *carousels@[i as int]);
        if is_playlists_carousel_exec(carousels[i]) {
            let mut found = parse_playlist_items(carousels[i]);
            proof {
                lemma_playlist_views_append(out@, found@);
            }
            out.append(&mut found);
        }
        i = i + 1;
        assert(playlist_views(out@) =~= concat(fs.take(i as int)));
    }
    assert(fs.take(carousels.len() as int) =~= fs);
    out
}

/// The continuation token of a paged response, if it has one.
pub open spec fn spec_continuation_token(data: JsonValue) -> Option<Seq<char>> {
    let command = spec_traverse_string(data, seq!["continuationCommand"@, "token"@]);
    if command.len() > 0 {
        Some(command)
    } else {
        nonempty(spec_traverse_string(data, seq!["continuation"@]))
    }
}

/// The continuation token of a paged response, if it has one.
pub fn continuation_token(data: &JsonValue) -> (r: Option<String>)
    ensures
        opt_view(r) == spec_continuation_token(*data),
{
    let command = path_string2(data, "continuationCommand", "token");
    if command.as_str().unicode_len() > 0 {
        return Some(command);
    }
    nonempty_exec(path_string1(data, "continuation"))
}

/// Whether a library response lists something: playlists, songs, or item
/// renderers in its serialized text `raw`.
pub open spec fn spec_library_payload_has_content(data: JsonValue, raw: Seq<char>) -> bool {
    spec_parse_playlist_items(data).len() > 0 || spec_parse_track_items(data, "SONG"@).len() > 0
        || contains(raw, "musicTwoRowItemRenderer"@) || contains(
        raw,
        "musicResponsiveListItemRenderer"@,
    )
}

/// Whether a library response lists something: playlists, songs, or item
/// renderers in its serialized text `raw`.
pub fn library_payload_has_content(data: &JsonValue, raw: &str) -> (r: bool)
    ensures
        r == spec_library_payload_has_content(*data, raw@),
{
    let v = chars_of(raw);
    assert(v@.subrange(0, v@.len() as int) =~= v@);
    parse_playlist_items(data).len() > 0 || parse_track_items(data, "SONG").len() > 0
        || window_find(&v, 0, v.len(), "musicTwoRowItemRenderer").is_some() || window_find(
        &v,
        0,
        v.len(),
        "musicResponsiveListItemRenderer",
    ).is_some()
}

/// Whether a library response belongs to a signed-in account: it lists
/// something, or its text `raw` does not ask to sign in.
pub open spec fn spec_library_payload_is_authenticated(data: JsonValue, raw: Seq<char>) -> bool {
    spec_library_payload_has_content(data, raw) || !contains(raw, "Sign in to access"@)
}

/// Whether a library response belongs to a signed-in account: it lists
/// something, or its serialized text `raw` does not ask to sign in.
pub fn library_payload_is_authenticated(data: &JsonValue, raw: &str) -> (r: bool)
    ensures
        r == spec_library_payload_is_authenticated(*data, raw@),
{
    if library_payload_has_content(data, raw) {
        return true;
    }
    let v = chars_of(raw);
    assert(v@.subrange(0, v@.len() as int) =~= v@);
    window_find(&v, 0, v.len(), "Sign in to access").is_none()
}


/// The browse params of an object's own `Playlists` carousel, if non-empty.
pub open spec fn own_carousel_params(data: JsonValue) -> Seq<Seq<char>> {
    match field(data, "musicCarouselShelfRenderer"@) {
        Some(c) => if is_playlists_carousel(c) {
            option_seq(
                nonempty(
                    spec_traverse_string(
                        c,
                        seq!["navigationEndpoint"@, "browseEndpoint"@, "params"@],
                    ),
                ),
            )
        } else {
            Seq::empty()
        },
        None => Seq::empty(),
    }
}

/// The browse params of every `Playlists` carousel in `data`, in document order.
pub open spec fn carousel_params(data: JsonValue) -> Seq<Seq<char>>
    decreases data,
{
    match data {
        JsonValue::Array(items) => carousel_params_list(items@),
        JsonValue::Object(entries) => own_carousel_params(data) + carousel_params_entries(entries@),
        _ => Seq::empty(),
    }
}

pub open spec fn carousel_params_list(items: Seq<JsonValue>) -> Seq<Seq<char>>
    decreases items,
{
    if items.len() == 0 {
        Seq::empty()
    } else {
        carousel_params_list(items.drop_last()) + carousel_params(items.last())
    }
}

pub open spec fn carousel_params_entries(entries: Seq<(String, JsonValue)>) -> Seq<Seq<char>>
    decreases entries,
{
    if entries.len() == 0 {
        Seq::empty()
    } else {
        carousel_params_entries(entries.drop_last()) + carousel_params(entries.last().1)
    }
}

fn walk_carousel_params(data: &JsonValue, out: &mut Vec<String>)
    ensures
        views(final(out)@) == views(old(out)@) + carousel_params(*data),
    decreases data,
{
    let ghost start = views(out@);
    match data {
        JsonValue::Array(items) => {
            let mut i: usize = 0;
            while i < items.len()
                invariant
                    0 <= i <= items.len(),
                    *data is Array,
                    (*data)->Array_0 == *items,
                    views(out@) == start + carousel_params_list(items@.take(i as int)),
                decreases items.len() - i,
            {
                assert(items@.take(i + 1).drop_last() =~= items@.take(i as int));
                proof {
                    let d = *data;
                    assert(decreases_to!(d => d->Array_0));
                    assert(decreases_to!(d->Array_0 => d->Array_0@));
                    assert(decreases_to!(items@ => items@[i as int]));
                }
                walk_carousel_params(&items[i], out);
                i = i + 1;
            }
            assert(items@.take(items.len() as int) =~= items@);
        },
        JsonValue::Object(entries) => {
            let ghost own = own_carousel_params(*data);
            match get(data, "musicCarouselShelfRenderer") {
                Some(c) => {
                    if is_playlists_carousel_exec(c) {
                        let params = path_string3(c, "navigationEndpoint", "browseEndpoint", "params");
                        if params.as_str().unicode_len() > 0 {
                            proof {
                                lemma_views_push(out@, params);
                            }
                            out.push(params);
                        }
                    }
                },
                None => {},
            }
            assert(views(out@) == start + own);
            let mut i: usize = 0;
            while i < entries.len()
                invariant
                    0 <= i <= entries.len(),
                    *data is Object,
                    (*data)->Object_0 == *entries,
                    views(out@) == start + own + carousel_params_entries(entries@.take(i as int)),
                decreases entries.len() - i,
            {
                assert(entries@.take(i + 1).drop_last() =~= entries@.take(i as int));
                proof {
                    let d = *data;
                    let e = entries@[i as int];
                    assert(decreases_to!(d => d->Object_0));
                    assert(decreases_to!(d->Object_0 => d->Object_0@));
                    assert(decreases_to!(entries@ => e));
                    assert(decreases_to!(e => e.1));
                }
                walk_carousel_params(&entries[i].1, out);
                i = i + 1;
            }
            assert(entries@.take(entries.len() as int) =~= entries@);
        },
        _ => {
            assert(views(out@) =~= start + Seq::<Seq<char>>::empty());
        },
    }
}

/// The distinct browse params of the `Playlists` carousels of a channel page,
/// in ascending order.
pub fn public_channel_playlist_params(data: &JsonValue) -> (r: Vec<String>)
    ensures
        strictly_ascending(views(r@)),
        views(r@).to_set() == carousel_params(*data).to_set(),
{
    let mut found: Vec<String> = Vec::new();
    walk_carousel_params(data, &mut found);
    assert(views(found@) =~= carousel_params(*data));
    let ghost all = views(found@);
    let mut sorted: Vec<String> = Vec::new();
    let mut i: usize = 0;
    while i < found.len()
        invariant
            0 <= i <= found.len(),
            all == views(found@),
            strictly_ascending(views(sorted@)),
            views(sorted@).to_set() == all.take(i as int).to_set(),
        decreases found.len() - i,
    {
        let x = found[i].clone();
        insert_sorted(&mut sorted, x);
        proof {
            assert(all.take(i + 1) =~= all.take(i as int).push(all[i as int]));
            all.take(i as int).lemma_push_to_set_commute(all[i as int]);
        }
        i = i + 1;
    }
    assert(all.take(found.len() as int) =~= all);
    sorted
}

/// A non-empty run of decimal digits.
pub open spec fn decimal_digits(s: Seq<char>) -> bool {
    s.len() > 0 && all_in(s, CharClass::Digit)
}

/// A run of digits whose value fits `u64` parses as that value.
proof fn lemma_parse_digits(s: Seq<char>)
    requires
        decimal_digits(s),
        crate::text::digits_value(s) <= u64::MAX,
    ensures
        spec_parse_u64(s) == Some(crate::text::digits_value(s) as u64),
        !s.contains(':'),
{
    assert(CharClass::Digit.holds(s[0]));
    if s.contains(':') {
        let j = choose|j: int| 0 <= j < s.len() && s[j] == ':';
        assert(CharClass::Digit.holds(s[j]));
    }
}

/// Wrapping arithmetic that does not wrap is plain arithmetic.
proof fn lemma_no_wrap(x: u64, y: u64, z: u64)
    requires
        x * y <= u64::MAX,
        z + x * y <= u64::MAX,
    ensures
        vstd::wrapping::u64_specs::wrapping_mul(x, y) == x * y,
        vstd::wrapping::u64_specs::wrapping_add(z, vstd::wrapping::u64_specs::wrapping_mul(x, y)) == z + x * y,
{
    vstd::arithmetic::div_mod::lemma_small_mod((x as nat * y as nat) as nat, 0x1_0000_0000_0000_0000nat);
}

/// The seconds of `m:s`: the minutes count sixty seconds each.
pub proof fn lemma_duration_ms(m: Seq<char>, s: Seq<char>)
    requires
        decimal_digits(m),
        decimal_digits(s),
        crate::text::digits_value(m) * 60 + crate::text::digits_value(s) <= u64::MAX,
    ensures
        spec_parse_duration(Some(m + seq![':'] + s))
            == crate::text::digits_value(m) * 60 + crate::text::digits_value(s),
{
    let vm = crate::text::digits_value(m);
    let vs = crate::text::digits_value(s);
    lemma_parse_digits(m);
    lemma_parse_digits(s);
    crate::cookie_form::lemma_split_at(m, s, ':');
    crate::cookie_form::lemma_split_absent(m, ':');
    crate::cookie_form::lemma_split_absent(s, ':');
    let ps = seq![m, s];
    assert(split_char(m + seq![':'] + s, ':') =~= ps);
    assert(ps.drop_first() =~= seq![s]);
    assert(seq![s].drop_first() =~= Seq::<Seq<char>>::empty());
    lemma_no_wrap(vs as u64, 1, 0);
    lemma_no_wrap(1, 60, 0);
    assert(duration_state(Seq::<Seq<char>>::empty()) == Some((0u64, 1u64)));
    assert(seq![s][0] == s);
    assert(duration_state(seq![s]) == Some((vs as u64, 60u64)));
    lemma_no_wrap(vm as u64, 60, vs as u64);
    lemma_no_wrap(60, 60, 0);
    assert(duration_state(ps) == Some(((vs + vm * 60) as u64, 3600u64)));
}

/// The seconds of `h:m:s`: the hours count 3600 seconds each, the minutes sixty.
pub proof fn lemma_duration_hms(h: Seq<char>, m: Seq<char>, s: Seq<char>)
    requires
        decimal_digits(h),
        decimal_digits(m),
        decimal_digits(s),
        crate::text::digits_value(h) * 3600 + crate::text::digits_value(m) * 60
            + crate::text::digits_value(s) <= u64::MAX,
    ensures
        spec_parse_duration(Some(h + seq![':'] + m + seq![':'] + s))
            == crate::text::digits_value(h) * 3600 + crate::text::digits_value(m) * 60
            + crate::text::digits_value(s),
{
    let vh = crate::text::digits_value(h);
    let vm = crate::text::digits_value(m);
    let vs = crate::text::digits_value(s);
    lemma_parse_digits(h);
    lemma_parse_digits(m);
    lemma_parse_digits(s);
    crate::cookie_form::lemma_split_at(h, m, ':');
    crate::cookie_form::lemma_split_at(h + seq![':'] + m, s, ':');
    crate::cookie_form::lemma_split_absent(h, ':');
    crate::cookie_form::lemma_split_absent(m, ':');
    crate::cookie_form::lemma_split_absent(s, ':');
    let ps = seq![h, m, s];
    assert(split_char(h + seq![':'] + m + seq![':'] + s, ':') =~= ps);
    assert(ps.drop_first() =~= seq![m, s]);
    assert(seq![m, s].drop_first() =~= seq![s]);
    assert(seq![s].drop_first() =~= Seq::<Seq<char>>::empty());
    lemma_no_wrap(vs as u64, 1, 0);
    lemma_no_wrap(1, 60, 0);
    assert(duration_state(Seq::<Seq<char>>::empty()) == Some((0u64, 1u64)));
    assert(seq![s][0] == s);
    assert(duration_state(seq![s]) == Some((vs as u64, 60u64)));
    lemma_no_wrap(vm as u64, 60, vs as u64);
    lemma_no_wrap(60, 60, 0);
    assert(duration_state(seq![m, s]) == Some(((vs + vm * 60) as u64, 3600u64)));
    lemma_no_wrap(vh as u64, 3600, (vs + vm * 60) as u64);
    lemma_no_wrap(3600, 60, 0);
    assert(duration_state(ps) == Some(((vs + vm * 60 + vh * 3600) as u64, 216000u64)));
}

/// The seconds of a bare number are that number.
pub proof fn lemma_duration_s(s: Seq<char>)
    requires
        decimal_digits(s),
        crate::text::digits_value(s) <= u64::MAX,
    ensures
        spec_parse_duration(Some(s)) == crate::text::digits_value(s),
{
    let vs = crate::text::digits_value(s);
    lemma_parse_digits(s);
    crate::cookie_form::lemma_split_absent(s, ':');
    assert(seq![s].drop_first() =~= Seq::<Seq<char>>::empty());
    lemma_no_wrap(vs as u64, 1, 0);
    lemma_no_wrap(1, 60, 0);
    assert(duration_state(Seq::<Seq<char>>::empty()) == Some((0u64, 1u64)));
    assert(seq![s][0] == s);
    assert(duration_state(seq![s]) == Some((vs as u64, 60u64)));
}

/// `first_column` gives the first column of the kind, and nothing where none is of it.
proof fn lemma_first_column_is_first(columns: Seq<JsonValue>, kind: ColumnKind)
    ensures
        match first_column(columns, kind) {
            Some(v) => exists|i: int| 0 <= i < columns.len() && columns[i] == v && column_is(kind, v)
                && forall|j: int| 0 <= j < i ==> !column_is(kind, #[trigger] columns[j]),
            None => forall|i: int| 0 <= i < columns.len() ==> !column_is(kind, #[trigger] columns[i]),
        },
    decreases columns.len(),
{
    if columns.len() > 0 {
        let init = columns.drop_last();
        lemma_first_column_is_first(init, kind);
        match first_column(init, kind) {
            Some(v) => {
                let i = choose|i: int| 0 <= i < init.len() && init[i] == v && column_is(kind, v)
                    && forall|j: int| 0 <= j < i ==> !column_is(kind, #[trigger] init[j]);
                assert(columns[i] == v);
                assert forall|j: int| 0 <= j < i implies !column_is(kind, #[trigger] columns[j]) by {
                    assert(columns[j] == init[j]);
                }
            },
            None => {
                assert forall|j: int| 0 <= j < init.len() implies !column_is(kind, #[trigger] columns[j]) by {
                    assert(columns[j] == init[j]);
                }
                if column_is(kind, columns.last()) {
                    assert(columns[columns.len() - 1] == columns.last());
                } else {
                    assert forall|i: int| 0 <= i < columns.len() implies !column_is(kind, #[trigger] columns[i]) by {
                        if i == columns.len() - 1 {
                            assert(columns[i] == columns.last());
                        }
                    }
                }
            },
        }
    }
}

/// The runs of a list item's flex and fixed columns, in that order.
pub open spec fn item_columns(item: JsonValue) -> Seq<JsonValue> {
    spec_traverse_list(item, seq!["flexColumns"@, "runs"@]) + spec_traverse_list(item, seq!["fixedColumns"@, "runs"@])
}

/// A run links to an album page.
pub open spec fn links_album(run: JsonValue) -> bool {
    spec_traverse_string(run, seq!["pageType"@]) == "MUSIC_PAGE_TYPE_ALBUM"@
}

/// A parsed track's album is the text of the first column that links to an album page, and
/// empty where no column links to one.
pub proof fn lemma_track_album(item: JsonValue, kind: Seq<char>)
    ensures
        spec_parse_track_item(item, kind) matches Some(t) ==> if exists|i: int|
            0 <= i < item_columns(item).len() && links_album(#[trigger] item_columns(item)[i]) {
            exists|i: int| {
                &&& 0 <= i < item_columns(item).len()
                &&& links_album(#[trigger] item_columns(item)[i])
                &&& forall|j: int| 0 <= j < i ==> !links_album(#[trigger] item_columns(item)[j])
                &&& t.album == spec_traverse_string(item_columns(item)[i], seq!["text"@])
            }
        } else {
            t.album.len() == 0
        },
{
    let cols = item_columns(item);
    lemma_first_column_is_first(cols, ColumnKind::Album);
    match first_column(cols, ColumnKind::Album) {
        Some(v) => {
            let i = choose|i: int| 0 <= i < cols.len() && cols[i] == v && column_is(ColumnKind::Album, v)
                && forall|j: int| 0 <= j < i ==> !column_is(ColumnKind::Album, #[trigger] cols[j]);
            assert(links_album(cols[i]));
            assert forall|j: int| 0 <= j < i implies !links_album(#[trigger] cols[j]) by {
                assert(!column_is(ColumnKind::Album, cols[j]));
            }
        },
        None => {
            assert forall|i: int| 0 <= i < cols.len() implies !links_album(#[trigger] cols[i]) by {
                assert(!column_is(ColumnKind::Album, cols[i]));
            }
        },
    }
}

} // verus!
