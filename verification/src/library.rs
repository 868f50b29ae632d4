//! What the app shows from the YouTube Music responses: the home shelves, a mix, the
//! search results, the account, and the library sections.
use vstd::prelude::*;
use crate::dedupe::{dedupe_mix_tracks, dedupe_tracks, lemma_dedupe_tracks_distinct, spec_dedupe_mix_tracks, spec_dedupe_tracks};
use crate::json::{derefs, path_list1, path_list2, path_string3, spec_traverse_list, spec_traverse_string, JsonValue};
use crate::models::{lemma_track_views_push, track_views, LibrarySectionPayload, Track, TrackPayload};
use crate::text::{concat, join, join_strings, push_str, take_at_most, trim, trimmed};
use crate::cookies::{byte_len, views, lemma_views_push};
use crate::ids::{normalize_playlist_id, spec_normalize_playlist_id, spec_valid_video_id, valid_playlist_params, valid_video_id};
use crate::json::{path_string1, path_string2};
use crate::models::{Playlist, PlaylistPayload};
use crate::text::{all_in, CharClass};
use crate::ytmusic::{best_thumbnail, playlist_url, spec_best_thumbnail};
use crate::ytmusic::{carousel_title, option_seq, parse_home_track_items, parse_playlist_panel_track_item, parse_track_items, spec_carousel_title, spec_parse_home_track_items, spec_parse_playlist_panel_track_item, spec_parse_track_items};

verus! {

/// A shelf as the app shows it: its title and its tracks.
pub open spec fn section_view(s: LibrarySectionPayload) -> (Seq<char>, Seq<Track>, Seq<char>) {
    (s.title@, track_views(s.tracks@), s.layout@)
}

pub open spec fn section_views(s: Seq<LibrarySectionPayload>) -> Seq<(Seq<char>, Seq<Track>, Seq<char>)> {
    s.map_values(|x: LibrarySectionPayload| section_view(x))
}

/// The most shelves on the home page, and the most tracks on each.
pub const HOME_SHELVES: usize = 8;
pub const HOME_SHELF_TRACKS: usize = 24;

/// A home shelf titled `title` from the items of `shelf`: its tracks, each id once and at
/// most 24; none where it has no title or no track.
pub open spec fn home_shelf(shelf: JsonValue, title: Seq<char>) -> Option<(Seq<char>, Seq<Track>, Seq<char>)> {
    let tracks = spec_dedupe_tracks(spec_parse_home_track_items(shelf), HOME_SHELF_TRACKS as nat);
    if title.len() > 0 && tracks.len() > 0 {
        Some((title, tracks, "grid"@))
    } else {
        None
    }
}

/// The title of a home shelf: its carousel header, or its section header.
pub open spec fn shelf_title(c: JsonValue, carousel: bool) -> Seq<char> {
    if carousel {
        spec_carousel_title(c)
    } else {
        spec_traverse_string(c, seq!["header"@, "title"@, "text"@])
    }
}

/// The shelves of the items `shelves`, at most 8.
pub open spec fn shelves_from(shelves: Seq<JsonValue>, carousel: bool) -> Seq<(Seq<char>, Seq<Track>, Seq<char>)> {
    take_at_most(
        concat(shelves.map_values(|c: JsonValue| option_seq(home_shelf(c, shelf_title(c, carousel))))),
        HOME_SHELVES as nat,
    )
}

/// The shelves of the carousels of the home response.
pub open spec fn carousel_shelves(data: JsonValue) -> Seq<(Seq<char>, Seq<Track>, Seq<char>)> {
    shelves_from(spec_traverse_list(data, seq!["musicCarouselShelfRenderer"@]), true)
}

/// The shelves of the section list of the home response.
pub open spec fn list_shelves(data: JsonValue) -> Seq<(Seq<char>, Seq<Track>, Seq<char>)> {
    shelves_from(spec_traverse_list(data, seq!["sectionListRenderer"@, "contents"@]), false)
}

/// The home page: the carousel shelves, or, where there are none, the section list's.
pub open spec fn spec_home_sections(data: JsonValue) -> Seq<(Seq<char>, Seq<Track>, Seq<char>)> {
    if carousel_shelves(data).len() > 0 {
        carousel_shelves(data)
    } else {
        list_shelves(data)
    }
}

proof fn lemma_section_views_push(s: Seq<LibrarySectionPayload>, x: LibrarySectionPayload)
    ensures
        section_views(s.push(x)) == section_views(s).push(section_view(x)),
{
    assert(section_views(s.push(x)) =~= section_views(s).push(section_view(x)));
}

/// The shelf of `shelf`, titled by the carousel header where `carousel`, else by the
/// section header.
fn home_shelf_exec(shelf: &JsonValue, carousel: bool) -> (r: Option<LibrarySectionPayload>)
    ensures
        match r {
            Some(s) => Some(section_view(s)) == home_shelf(*shelf, shelf_title(*shelf, carousel)),
            None => home_shelf(*shelf, shelf_title(*shelf, carousel)) is None,
        },
{
    let title = if carousel {
        carousel_title(shelf)
    } else {
        path_string3(shelf, "header", "title", "text")
    };
    let tracks = dedupe_tracks(parse_home_track_items(shelf), HOME_SHELF_TRACKS);
    if title.as_str().unicode_len() > 0 && tracks.len() > 0 {
        Some(LibrarySectionPayload { title, tracks, layout: "grid".to_owned() })
    } else {
        None
    }
}

/// The shelves of the items `shelves`, at most 8.
fn shelves_of(shelves: &Vec<&JsonValue>, carousel: bool) -> (r: Vec<LibrarySectionPayload>)
    ensures
        section_views(r@) == shelves_from(derefs(shelves@), carousel),
{
    let ghost fs = derefs(shelves@).map_values(
        |c: JsonValue| option_seq(home_shelf(c, shelf_title(c, carousel))),
    );
    let mut out: Vec<LibrarySectionPayload> = Vec::new();
    let mut i: usize = 0;
    assert(fs.take(0) =~= Seq::<Seq<(Seq<char>, Seq<Track>, Seq<char>)>>::empty());
    while i < shelves.len()
        invariant
            i <= shelves@.len(),
            fs == derefs(shelves@).map_values(
                |c: JsonValue| option_seq(home_shelf(c, shelf_title(c, carousel))),
            ),
            section_views(out@) == concat(fs.take(i as int)),
        decreases shelves@.len() - i,
    {
        assert(fs.take(i + 1).drop_last() =~= fs.take(i as int));
        assert(derefs(shelves@)[i as int] == *shelves@[i as int]);
        match home_shelf_exec(shelves[i], carousel) {
            Some(s) => {
                proof {
                    lemma_section_views_push(out@, s);
                }
                out.push(s);
            },
            None => {},
        }
        i = i + 1;
        assert(section_views(out@) =~= concat(fs.take(i as int)));
    }
    assert(fs.take(shelves@.len() as int) =~= fs);
    out.truncate(HOME_SHELVES);
    assert(section_views(out@) =~= take_at_most(concat(fs), HOME_SHELVES as nat));
    out
}

/// The shelves of the home page in the home response `data`.
pub fn home_sections(data: &JsonValue) -> (r: Vec<LibrarySectionPayload>)
    ensures
        section_views(r@) == spec_home_sections(*data),
{
    let carousels = path_list1(data, "musicCarouselShelfRenderer");
    let shelves = shelves_of(&carousels, true);
    assert(section_views(shelves@).len() == shelves@.len());
    if shelves.len() > 0 {
        return shelves;
    }
    let sections = path_list2(data, "sectionListRenderer", "contents");
    shelves_of(&sections, false)
}

/// The tracks of a mix response before they are put in order: its queue, then its songs,
/// or its videos where it has neither.
pub open spec fn mix_candidates(data: JsonValue) -> Seq<Track> {
    let queued = concat(
        spec_traverse_list(data, seq!["playlistPanelVideoRenderer"@]).map_values(
            |item: JsonValue| option_seq(spec_parse_playlist_panel_track_item(item)),
        ),
    );
    let found = queued + spec_parse_track_items(data, "SONG"@);
    if found.len() == 0 {
        spec_parse_track_items(data, "VIDEO"@)
    } else {
        found
    }
}

/// The first position of a track with id `id`.
pub open spec fn first_with_id(ts: Seq<Track>, id: Seq<char>, from: int) -> Option<int>
    decreases ts.len() - from,
{
    if from < 0 || from >= ts.len() {
        None
    } else if ts[from].id == id {
        Some(from)
    } else {
        first_with_id(ts, id, from + 1)
    }
}

/// `ts` turned so that the first track with id `id` comes first, where there is one.
pub open spec fn rotate_to(ts: Seq<Track>, id: Seq<char>) -> Seq<Track> {
    match first_with_id(ts, id, 0) {
        Some(i) => ts.skip(i) + ts.take(i),
        None => ts,
    }
}

/// The most tracks of a mix.
pub const MIX_TRACKS: usize = 80;

/// The tracks of the mix of `video_id`: from its track on, each id and each title and artist
/// once, at most 80.
pub open spec fn spec_mix_tracks(data: JsonValue, video_id: Seq<char>) -> Seq<Track> {
    spec_dedupe_mix_tracks(rotate_to(mix_candidates(data), video_id), MIX_TRACKS as nat)
}

/// The tracks of the mix of `video_id` in the response `data`.
pub fn mix_tracks(data: &JsonValue, video_id: &str) -> (r: Vec<TrackPayload>)
    ensures
        track_views(r@) == spec_mix_tracks(*data, video_id@),
{
    let items = path_list1(data, "playlistPanelVideoRenderer");
    let ghost vs = derefs(items@);
    let ghost fs = vs.map_values(|item: JsonValue| option_seq(spec_parse_playlist_panel_track_item(item)));
    let mut tracks: Vec<TrackPayload> = Vec::new();
    let mut i: usize = 0;
    assert(fs.take(0) =~= Seq::<Seq<Track>>::empty());
    while i < items.len()
        invariant
            i <= items@.len(),
            vs == derefs(items@),
            fs == vs.map_values(|item: JsonValue| option_seq(spec_parse_playlist_panel_track_item(item))),
            track_views(tracks@) == concat(fs.take(i as int)),
        decreases items@.len() - i,
    {
        assert(fs.take(i + 1).drop_last() =~= fs.take(i as int));
        assert(vs[i as int] == *items@[i as int]);
        match parse_playlist_panel_track_item(items[i]) {
            Some(t) => {
                proof {
                    lemma_track_views_push(tracks@, t);
                }
                tracks.push(t);
            },
            None => {},
        }
        i = i + 1;
        assert(track_views(tracks@) =~= concat(fs.take(i as int)));
    }
    assert(fs.take(items@.len() as int) =~= fs);
    let ghost queued = track_views(tracks@);
    let mut songs = parse_track_items(data, "SONG");
    let ghost song_views = track_views(songs@);
    tracks.append(&mut songs);
    assert(track_views(tracks@) =~= queued + song_views);
    if tracks.len() == 0 {
        tracks = parse_track_items(data, "VIDEO");
    }
    let ghost ts = track_views(tracks@);
    assert(ts == mix_candidates(*data));
    let mut k: usize = 0;
    while k < tracks.len()
        invariant
            k <= tracks@.len(),
            ts == track_views(tracks@),
            first_with_id(ts, video_id@, 0) == first_with_id(ts, video_id@, k as int),
        ensures
            k <= tracks@.len(),
            first_with_id(ts, video_id@, 0) == first_with_id(ts, video_id@, k as int),
            k < tracks@.len() ==> ts[k as int].id == video_id@,
        decreases tracks@.len() - k,
    {
        assert(ts[k as int] == tracks@[k as int]@);
        if crate::text::str_eq(tracks[k].id.as_str(), video_id) {
            break;
        }
        k = k + 1;
    }
    if k < tracks.len() {
        let mut tail = tracks.split_off(k);
        let ghost t1 = tail@;
        let ghost t0 = tracks@;
        tail.append(&mut tracks);
        proof {
            assert(tail@ =~= t1 + t0);
            assert(ts.skip(k as int) =~= track_views(t1));
            assert(ts.take(k as int) =~= track_views(t0));
            assert(track_views(tail@) =~= ts.skip(k as int) + ts.take(k as int));
        }
        dedupe_mix_tracks(tail, MIX_TRACKS)
    } else {
        dedupe_mix_tracks(tracks, MIX_TRACKS)
    }
}

/// The first of `names` that is not blank.
pub open spec fn first_nonblank(names: Seq<Seq<char>>) -> Option<Seq<char>>
    decreases names.len(),
{
    if names.len() == 0 {
        None
    } else if trim(names[0]).len() > 0 {
        Some(names[0])
    } else {
        first_nonblank(names.drop_first())
    }
}

/// The name of the signed-in account in the account menu `data`.
pub open spec fn account_name(data: JsonValue) -> Seq<char> {
    let names = seq![
        spec_traverse_string(data, seq!["accountName"@, "text"@]),
        spec_traverse_string(data, seq!["accountName"@, "runs"@, "text"@]),
        spec_traverse_string(data, seq!["channelHandle"@, "text"@]),
    ];
    match first_nonblank(names) {
        Some(n) => n,
        None => "YouTube Music account"@,
    }
}

/// The first non-empty best thumbnail of `photos`.
pub open spec fn first_photo(photos: Seq<JsonValue>) -> Option<Seq<char>>
    decreases photos.len(),
{
    if photos.len() == 0 {
        None
    } else if spec_best_thumbnail(photos[0]).len() > 0 {
        Some(spec_best_thumbnail(photos[0]))
    } else {
        first_photo(photos.drop_first())
    }
}

/// The picture of the signed-in account: from its account photo, else from the whole menu.
pub open spec fn account_picture(data: JsonValue) -> Seq<char> {
    match first_photo(spec_traverse_list(data, seq!["accountPhoto"@])) {
        Some(p) => p,
        None => spec_best_thumbnail(data),
    }
}

fn is_blank(s: &String) -> (r: bool)
    ensures
        r == (trim(s@).len() == 0),
{
    let t = trimmed(s.as_str());
    t.as_str().unicode_len() == 0
}

/// The name and the picture of the signed-in account in the account menu `data`.
pub fn account_profile(data: &JsonValue) -> (r: (String, String))
    ensures
        r.0@ == account_name(*data),
        r.1@ == account_picture(*data),
{
    let a = path_string2(data, "accountName", "text");
    let b = path_string3(data, "accountName", "runs", "text");
    let c = path_string2(data, "channelHandle", "text");
    let ghost names = seq![a@, b@, c@];
    assert(names.drop_first() =~= seq![b@, c@]);
    assert(names.drop_first().drop_first() =~= seq![c@]);
    assert(names.drop_first().drop_first().drop_first() =~= Seq::<Seq<char>>::empty());
    proof {
        reveal_with_fuel(first_nonblank, 4);
    }
    let name = if !is_blank(&a) {
        a
    } else if !is_blank(&b) {
        b
    } else if !is_blank(&c) {
        c
    } else {
        "YouTube Music account".to_owned()
    };
    let photos = path_list1(data, "accountPhoto");
    let ghost ps = derefs(photos@);
    let mut i: usize = 0;
    let mut picture: Option<String> = None;
    assert(ps.skip(0) =~= ps);
    while i < photos.len()
        invariant_except_break
            picture is None,
        invariant
            i <= photos@.len(),
            ps == derefs(photos@),
            first_photo(ps) == first_photo(ps.skip(i as int)),
        ensures
            match picture {
                Some(p) => first_photo(ps) == Some(p@),
                None => first_photo(ps) is None,
            },
        decreases photos@.len() - i,
    {
        assert(ps.skip(i as int)[0] == *photos@[i as int]);
        assert(ps.skip(i as int).drop_first() =~= ps.skip(i + 1));
        let t = best_thumbnail(photos[i]);
        if t.as_str().unicode_len() > 0 {
            picture = Some(t);
            break;
        }
        i = i + 1;
    }
    proof {
        if picture is None && i == photos@.len() {
            assert(ps.skip(i as int) =~= Seq::<JsonValue>::empty());
        }
    }
    let picture = match picture {
        Some(p) => p,
        None => best_thumbnail(data),
    };
    (name, picture)
}

/// The search parameters that ask for songs, and for videos.
pub const SONG_SEARCH_PARAMS: &'static str = "Eg-KAQwIARAAGAAgACgAMABqChAEEAMQCRAFEAo%3D";
pub const VIDEO_SEARCH_PARAMS: &'static str = "Eg-KAQwIABABGAAgACgAMABqChAEEAMQCRAFEAo%3D";

/// The most results of a search.
pub const SEARCH_RESULTS: usize = 36;

/// The text searched for: `query` trimmed, where it has at least two bytes.
pub open spec fn spec_search_query(query: Seq<char>) -> Option<Seq<char>> {
    if byte_len(trim(query)) < 2 {
        None
    } else {
        Some(trim(query))
    }
}

/// The text to search for; `None` where the query is too short to search.
pub fn search_query(query: &str) -> (r: Option<String>)
    ensures
        match r {
            Some(q) => spec_search_query(query@) == Some(q@),
            None => spec_search_query(query@) is None,
        },
{
    let t = trimmed(query);
    if t.as_str().as_bytes().len() < 2 {
        None
    } else {
        Some(t)
    }
}

/// The tracks that the two searches found: the songs, then the videos.
pub open spec fn search_found(songs: Result<JsonValue, String>, videos: Result<JsonValue, String>) -> Seq<Track> {
    (match songs {
        Ok(d) => spec_parse_track_items(d, "SONG"@),
        Err(_) => Seq::empty(),
    }) + (match videos {
        Ok(d) => spec_parse_track_items(d, "VIDEO"@),
        Err(_) => Seq::empty(),
    })
}

/// What went wrong in the two searches.
pub open spec fn search_errors(songs: Result<JsonValue, String>, videos: Result<JsonValue, String>) -> Seq<Seq<char>> {
    (match songs {
        Ok(_) => Seq::empty(),
        Err(e) => seq!["songs: "@ + e@],
    }) + (match videos {
        Ok(_) => Seq::empty(),
        Err(e) => seq!["videos: "@ + e@],
    })
}

/// The results of a search from the answers to the song search and the video search: each
/// id once, at most 36; an error only where nothing was found and a search failed.
pub fn search_results(songs: Result<JsonValue, String>, videos: Result<JsonValue, String>) -> (r: Result<Vec<TrackPayload>, String>)
    ensures
        match r {
            Ok(ts) => !(search_found(songs, videos).len() == 0 && search_errors(songs, videos).len() > 0)
                && track_views(ts@) == spec_dedupe_tracks(search_found(songs, videos), SEARCH_RESULTS as nat),
            Err(e) => search_found(songs, videos).len() == 0 && search_errors(songs, videos).len() > 0
                && e@ == "Search failed: "@ + join(search_errors(songs, videos), "; "@),
        },
{
    let ghost found = search_found(songs, videos);
    let ghost errs = search_errors(songs, videos);
    let mut errors: Vec<String> = Vec::new();
    let mut tracks: Vec<TrackPayload> = Vec::new();
    match &songs {
        Ok(data) => {
            tracks = parse_track_items(data, "SONG");
        },
        Err(e) => {
            let mut m = "songs: ".to_owned();
            push_str(&mut m, e.as_str());
            proof {
                lemma_views_push(errors@, m);
            }
            errors.push(m);
        },
    }
    let ghost head = track_views(tracks@);
    let ghost eh = views(errors@);
    match &videos {
        Ok(data) => {
            let mut more = parse_track_items(data, "VIDEO");
            let ghost mv = track_views(more@);
            tracks.append(&mut more);
            assert(track_views(tracks@) =~= head + mv);
        },
        Err(e) => {
            let mut m = "videos: ".to_owned();
            push_str(&mut m, e.as_str());
            proof {
                lemma_views_push(errors@, m);
            }
            errors.push(m);
        },
    }
    assert(track_views(tracks@) =~= found);
    assert(views(errors@) =~= errs);
    if tracks.len() == 0 && errors.len() > 0 {
        let mut e = "Search failed: ".to_owned();
        let joined = join_strings(&errors, "; ");
        assert(errors@.map_values(|x: String| x@) =~= views(errors@));
        push_str(&mut e, joined.as_str());
        return Err(e);
    }
    Ok(dedupe_tracks(tracks, SEARCH_RESULTS))
}

/// The playlist that was made from the answer to a request to create it: its id is in the
/// answer; an error where it is not.
pub fn created_playlist(data: &JsonValue, title: &str) -> (r: Result<PlaylistPayload, String>)
    ensures
        match r {
            Ok(p) => {
                let id = spec_traverse_string(*data, seq!["playlistId"@]);
                id.len() > 0 && p@ == Playlist { id, title: title@, thumbnail: Seq::empty(), url: playlist_url(id) }
            },
            Err(e) => spec_traverse_string(*data, seq!["playlistId"@]).len() == 0
                && e@ == "YouTube Music did not return a playlist id"@,
        },
{
    let id = path_string1(data, "playlistId");
    if id.as_str().unicode_len() == 0 {
        return Err("YouTube Music did not return a playlist id".to_owned());
    }
    let mut url = "https://music.youtube.com/playlist?list=".to_owned();
    push_str(&mut url, id.as_str());
    Ok(PlaylistPayload { id, title: title.to_owned(), thumbnail: String::new(), url })
}

/// The browse ids under which the liked songs are asked for, in turn.
pub fn liked_browse_ids() -> (r: [&'static str; 2])
    ensures
        r@[0]@ == "VLLM"@,
        r@[1]@ == "LM"@,
{
    ["VLLM", "LM"]
}

/// The most liked songs shown.
pub const LIKED_TRACKS: usize = 50;

/// The liked songs from the answer to the request under `browse_id`, each id once and at
/// most 50; where it failed or holds none, the error to report for it.
pub fn liked_tracks(browse_id: &str, response: Result<JsonValue, String>) -> (r: Result<Vec<TrackPayload>, String>)
    ensures
        match response {
            Ok(d) => match r {
                Ok(ts) => spec_parse_track_items(d, "VIDEO"@).len() > 0 && track_views(ts@)
                    == spec_dedupe_tracks(spec_parse_track_items(d, "VIDEO"@), LIKED_TRACKS as nat),
                Err(e) => spec_parse_track_items(d, "VIDEO"@).len() == 0 && e@ == browse_id@ + ": no tracks"@,
            },
            Err(f) => r matches Err(e) && e@ == browse_id@ + ": "@ + f@,
        },
{
    match response {
        Ok(data) => {
            let tracks = parse_track_items(&data, "VIDEO");
            if tracks.len() > 0 {
                Ok(dedupe_tracks(tracks, LIKED_TRACKS))
            } else {
                let mut e = browse_id.to_owned();
                push_str(&mut e, ": no tracks");
                Err(e)
            }
        },
        Err(f) => {
            let mut e = browse_id.to_owned();
            push_str(&mut e, ": ");
            push_str(&mut e, f.as_str());
            Err(e)
        },
    }
}

/// The token of the next page to ask for while collecting: only while the last page added
/// something and fewer than `limit` items are collected.
pub fn page_continuation(collected: usize, limit: usize, grew: bool, token: Option<String>) -> (r: Option<String>)
    ensures
        r == (if grew && collected < limit { token } else { None }),
{
    if grew && collected < limit {
        token
    } else {
        None
    }
}

/// The sections of the library: the songs of the library page, each id once and at most
/// 50, then the liked songs; each where it has any.
pub open spec fn spec_library_sections(landing: JsonValue, liked: Option<Seq<Track>>) -> Seq<(Seq<char>, Seq<Track>, Seq<char>)> {
    let own = spec_dedupe_tracks(spec_parse_track_items(landing, "SONG"@), LIKED_TRACKS as nat);
    (if own.len() > 0 {
        seq![("Library"@, own, Seq::empty())]
    } else {
        Seq::empty()
    }) + match liked {
        Some(ts) => if ts.len() > 0 {
            seq![("Liked Music"@, ts, Seq::empty())]
        } else {
            Seq::empty()
        },
        None => Seq::empty(),
    }
}

/// The sections of the library from the library page `landing` and the liked songs, where
/// they could be read.
pub fn library_sections(landing: &JsonValue, liked: Option<Vec<TrackPayload>>) -> (r: Vec<LibrarySectionPayload>)
    ensures
        section_views(r@) == spec_library_sections(
            *landing,
            match liked {
                Some(ts) => Some(track_views(ts@)),
                None => None,
            },
        ),
{
    let own = dedupe_tracks(parse_track_items(landing, "SONG"), LIKED_TRACKS);
    let mut sections: Vec<LibrarySectionPayload> = Vec::new();
    if own.len() > 0 {
        let s = LibrarySectionPayload { title: "Library".to_owned(), tracks: own, layout: String::new() };
        proof {
            lemma_section_views_push(sections@, s);
        }
        sections.push(s);
    }
    let ghost head = section_views(sections@);
    match liked {
        Some(ts) => {
            if ts.len() > 0 {
                let s = LibrarySectionPayload { title: "Liked Music".to_owned(), tracks: ts, layout: String::new() };
                proof {
                    lemma_section_views_push(sections@, s);
                }
                sections.push(s);
            }
        },
        None => {},
    }
    assert(section_views(sections@) =~= spec_library_sections(
        *landing,
        match liked {
            Some(ts) => Some(track_views(ts@)),
            None => None,
        },
    ));
    sections
}

/// The checked arguments of a mix request: the playlist id without a leading `VL` (empty
/// where none was given) and the trimmed playlist parameters.
pub open spec fn spec_mix_request(video_id: Seq<char>, playlist_id: Seq<char>, params: Seq<char>) -> Result<(Seq<char>, Seq<char>), Seq<char>> {
    if !spec_valid_video_id(video_id) {
        Err("Invalid video id"@)
    } else {
        let pid = if trim(playlist_id).len() == 0 {
            Ok(Seq::<char>::empty())
        } else {
            spec_normalize_playlist_id(playlist_id)
        };
        match pid {
            Err(e) => Err(e),
            Ok(p) => if !all_in(trim(params), CharClass::ParamChar) {
                Err("Invalid playlist params"@)
            } else {
                Ok((p, trim(params)))
            },
        }
    }
}

/// Checks the arguments of a mix request.
pub fn mix_request(video_id: &str, playlist_id: &str, params: &str) -> (r: Result<(String, String), String>)
    ensures
        match r {
            Ok((p, q)) => spec_mix_request(video_id@, playlist_id@, params@) == Ok::<(Seq<char>, Seq<char>), Seq<char>>((p@, q@)),
            Err(e) => spec_mix_request(video_id@, playlist_id@, params@) == Err::<(Seq<char>, Seq<char>), Seq<char>>(e@),
        },
{
    if !valid_video_id(video_id) {
        return Err("Invalid video id".to_owned());
    }
    let pid = if is_blank(&playlist_id.to_owned()) {
        String::new()
    } else {
        match normalize_playlist_id(playlist_id) {
            Ok(p) => p,
            Err(e) => {
                return Err(e);
            },
        }
    };
    let q = trimmed(params);
    if !valid_playlist_params(q.as_str()) {
        return Err("Invalid playlist params".to_owned());
    }
    Ok((pid, q))
}

/// Each element of a concatenation is an element of one of the parts.
pub proof fn lemma_concat_member<A>(ss: Seq<Seq<A>>, k: int)
    requires
        0 <= k < concat(ss).len(),
    ensures
        exists|i: int, j: int| 0 <= i < ss.len() && 0 <= j < ss[i].len() && #[trigger] ss[i][j] == concat(ss)[k],
    decreases ss.len(),
{
    if ss.len() > 0 {
        let prev = concat(ss.drop_last());
        if k < prev.len() {
            lemma_concat_member(ss.drop_last(), k);
            let (i, j) = choose|i: int, j: int| 0 <= i < ss.drop_last().len() && 0 <= j < ss.drop_last()[i].len()
                && #[trigger] ss.drop_last()[i][j] == prev[k];
            assert(ss[i][j] == concat(ss)[k]);
        } else {
            let j = k - prev.len();
            assert(ss[ss.len() - 1][j] == concat(ss)[k]);
        }
    }
}

/// The home page has at most 8 shelves; each has a title and between one and 24 tracks,
/// each id on it once.
pub proof fn lemma_home_shelves(data: JsonValue)
    ensures
        spec_home_sections(data).len() <= HOME_SHELVES,
        forall|k: int| 0 <= k < spec_home_sections(data).len() ==> {
            let (title, tracks, _) = #[trigger] spec_home_sections(data)[k];
            &&& title.len() > 0
            &&& 0 < tracks.len() <= HOME_SHELF_TRACKS
            &&& forall|i: int, j: int| 0 <= i < j < tracks.len() ==> (#[trigger] tracks[i]).id != (#[trigger] tracks[j]).id
        },
{
    let carousel = carousel_shelves(data).len() > 0;
    let items = if carousel {
        spec_traverse_list(data, seq!["musicCarouselShelfRenderer"@])
    } else {
        spec_traverse_list(data, seq!["sectionListRenderer"@, "contents"@])
    };
    let ss = items.map_values(|c: JsonValue| option_seq(home_shelf(c, shelf_title(c, carousel))));
    let r = spec_home_sections(data);
    assert(r == take_at_most(concat(ss), HOME_SHELVES as nat));
    assert forall|k: int| 0 <= k < r.len() implies {
        let (title, tracks, _) = #[trigger] r[k];
        &&& title.len() > 0
        &&& 0 < tracks.len() <= HOME_SHELF_TRACKS
        &&& forall|i: int, j: int| 0 <= i < j < tracks.len() ==> (#[trigger] tracks[i]).id != (#[trigger] tracks[j]).id
    } by {
        assert(r[k] == concat(ss)[k]);
        lemma_concat_member(ss, k);
        let (i, j) = choose|i: int, j: int| 0 <= i < ss.len() && 0 <= j < ss[i].len() && #[trigger] ss[i][j] == concat(ss)[k];
        let c = items[i];
        assert(ss[i] == option_seq(home_shelf(c, shelf_title(c, carousel))));
        assert(home_shelf(c, shelf_title(c, carousel)) == Some(r[k]));
        lemma_dedupe_tracks_distinct(spec_parse_home_track_items(c), HOME_SHELF_TRACKS as nat);
    }
}

/// How many of the channel's playlist tabs the library opens.
pub const CHANNEL_PLAYLIST_TABS: usize = 2;

/// Where collecting the library's playlists stands, after the landing page: the liked
/// playlists are next, then the channel's page, then its playlist tabs, one by one.
pub enum PlaylistBrowse {
    Liked,
    Channel,
    Tabs { params: Vec<String>, next: usize },
    Done,
}

/// A browse request: the browse id, the tab's params where it opens a tab, and whether it
/// is the channel's page (read for its playlist tiles, with no further pages) or a list of
/// playlists (read with the pages that follow it).
pub struct PlaylistBrowseRequest {
    pub browse_id: String,
    pub params: Option<String>,
    pub channel_page: bool,
}

/// The request that `phase` asks for, or `None` where collecting is done.
pub open spec fn spec_playlist_browse_request(phase: PlaylistBrowse, channel_id: Seq<char>) -> Option<(Seq<char>, Option<Seq<char>>, bool)> {
    match phase {
        PlaylistBrowse::Liked => Some(("FEmusic_liked_playlists"@, None, false)),
        PlaylistBrowse::Channel => Some((channel_id, None, true)),
        PlaylistBrowse::Tabs { params, next } => if next < params@.len() {
            Some((channel_id, Some(params@[next as int]@), false))
        } else {
            None
        },
        PlaylistBrowse::Done => None,
    }
}

/// The request that `phase` asks for, with `channel_id` the channel of the session.
pub fn playlist_browse_request(phase: &PlaylistBrowse, channel_id: &str) -> (r: Option<PlaylistBrowseRequest>)
    ensures
        match spec_playlist_browse_request(*phase, channel_id@) {
            Some((b, p, c)) => r matches Some(q) && q.browse_id@ == b && q.channel_page == c
                && match p {
                    Some(x) => q.params matches Some(y) && y@ == x,
                    None => q.params is None,
                },
            None => r is None,
        },
{
    match phase {
        PlaylistBrowse::Liked => Some(PlaylistBrowseRequest {
            browse_id: "FEmusic_liked_playlists".to_owned(),
            params: None,
            channel_page: false,
        }),
        PlaylistBrowse::Channel => Some(PlaylistBrowseRequest {
            browse_id: channel_id.to_owned(),
            params: None,
            channel_page: true,
        }),
        PlaylistBrowse::Tabs { params, next } => {
            if *next < params.len() {
                Some(PlaylistBrowseRequest {
                    browse_id: channel_id.to_owned(),
                    params: Some(params[*next].clone()),
                    channel_page: false,
                })
            } else {
                None
            }
        },
        PlaylistBrowse::Done => None,
    }
}

/// The phase after `phase`: the channel's page follows the liked playlists where the session
/// has a channel; the first two of `tabs`, the playlist tabs of the channel's page (none
/// where the page could not be read), follow the page; each tab is followed by the next,
/// and the last by the end.
pub fn next_playlist_browse(phase: PlaylistBrowse, channel_id: &str, tabs: Vec<String>) -> (r: PlaylistBrowse)
    ensures
        match phase {
            PlaylistBrowse::Liked => if channel_id@.len() > 0 { r is Channel } else { r is Done },
            PlaylistBrowse::Channel => r matches PlaylistBrowse::Tabs { params, next }
                && next == 0 && views(params@) == take_at_most(views(tabs@), CHANNEL_PLAYLIST_TABS as nat),
            PlaylistBrowse::Tabs { params, next } => if next + 1 < params@.len() {
                r matches PlaylistBrowse::Tabs { params: p, next: n } && n == next + 1
                    && views(p@) == views(params@)
            } else {
                r is Done
            },
            PlaylistBrowse::Done => r is Done,
        },
{
    match phase {
        PlaylistBrowse::Liked => {
            if channel_id.unicode_len() > 0 {
                PlaylistBrowse::Channel
            } else {
                PlaylistBrowse::Done
            }
        },
        PlaylistBrowse::Channel => {
            let mut tabs = tabs;
            if tabs.len() > CHANNEL_PLAYLIST_TABS {
                tabs.truncate(CHANNEL_PLAYLIST_TABS);
            }
            PlaylistBrowse::Tabs { params: tabs, next: 0 }
        },
        PlaylistBrowse::Tabs { params, next } => {
            if next < params.len() && params.len() - next > 1 {
                PlaylistBrowse::Tabs { params, next: next + 1 }
            } else {
                PlaylistBrowse::Done
            }
        },
        PlaylistBrowse::Done => PlaylistBrowse::Done,
    }
}

/// Where both searches answered, the results draw on both: every song and every video found
/// with an id has a result of its id unless the results are already full (36 of them), and
/// every result is a song or a video that was found.
pub proof fn lemma_search_keeps_both(songs: JsonValue, videos: JsonValue)
    ensures
        ({
            let r = spec_dedupe_tracks(
                search_found(Ok::<JsonValue, String>(songs), Ok::<JsonValue, String>(videos)),
                SEARCH_RESULTS as nat,
            );
            let s = spec_parse_track_items(songs, "SONG"@);
            let v = spec_parse_track_items(videos, "VIDEO"@);
            &&& forall|i: int| 0 <= i < s.len() && (#[trigger] s[i]).id.len() > 0 ==> r.len() == SEARCH_RESULTS
                || exists|k: int| 0 <= k < r.len() && (#[trigger] r[k]).id == s[i].id
            &&& forall|i: int| 0 <= i < v.len() && (#[trigger] v[i]).id.len() > 0 ==> r.len() == SEARCH_RESULTS
                || exists|k: int| 0 <= k < r.len() && (#[trigger] r[k]).id == v[i].id
            &&& forall|k: int| 0 <= k < r.len() ==> s.contains(#[trigger] r[k]) || v.contains(r[k])
        }),
{
    let found = search_found(Ok::<JsonValue, String>(songs), Ok::<JsonValue, String>(videos));
    let r = spec_dedupe_tracks(found, SEARCH_RESULTS as nat);
    let s = spec_parse_track_items(songs, "SONG"@);
    let v = spec_parse_track_items(videos, "VIDEO"@);
    assert(found == s + v);
    assert forall|i: int| 0 <= i < s.len() && (#[trigger] s[i]).id.len() > 0 implies r.len() == SEARCH_RESULTS
        || exists|k: int| 0 <= k < r.len() && (#[trigger] r[k]).id == s[i].id by {
        assert(found[i] == s[i]);
        crate::dedupe::lemma_dedupe_tracks_keeps_ids(found, SEARCH_RESULTS as nat, i);
    }
    assert forall|i: int| 0 <= i < v.len() && (#[trigger] v[i]).id.len() > 0 implies r.len() == SEARCH_RESULTS
        || exists|k: int| 0 <= k < r.len() && (#[trigger] r[k]).id == v[i].id by {
        assert(found[s.len() + i] == v[i]);
        crate::dedupe::lemma_dedupe_tracks_keeps_ids(found, SEARCH_RESULTS as nat, s.len() + i);
    }
    crate::dedupe::lemma_dedupe_tracks_distinct(found, SEARCH_RESULTS as nat);
    assert forall|k: int| 0 <= k < r.len() implies s.contains(#[trigger] r[k]) || v.contains(r[k]) by {
        assert(found.contains(r[k]));
        let j = choose|j: int| 0 <= j < found.len() && found[j] == r[k];
        if j < s.len() {
            assert(s[j] == r[k]);
        } else {
            assert(v[j - s.len()] == r[k]);
        }
    }
}

} // verus!
