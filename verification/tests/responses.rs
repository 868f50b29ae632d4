use yolite::json::{merge_json, JsonValue};
use yolite::library::{
    account_profile, created_playlist, home_sections, library_sections, liked_tracks, mix_request,
    mix_tracks, page_continuation, search_query, search_results,
};
use yolite::ytmusic::{
    best_thumbnail, parse_playlist_panel_track_item, parse_public_channel_playlists,
    parse_two_row_track_item, public_channel_playlist_params,
};

fn s(text: &str) -> JsonValue {
    JsonValue::Str(text.to_string())
}

fn num(n: u64) -> JsonValue {
    JsonValue::Number(Some(n))
}

fn arr(items: Vec<JsonValue>) -> JsonValue {
    JsonValue::Array(items)
}

/// An object with its keys in sorted order, as `serde_json` keeps them.
fn obj(entries: Vec<(&str, JsonValue)>) -> JsonValue {
    let mut entries: Vec<(String, JsonValue)> =
        entries.into_iter().map(|(k, v)| (k.to_string(), v)).collect();
    entries.sort_by(|a, b| a.0.cmp(&b.0));
    JsonValue::Object(entries)
}

fn runs(text: &str) -> JsonValue {
    obj(vec![("runs", arr(vec![obj(vec![("text", s(text))])]))])
}

fn artist_run(text: &str) -> JsonValue {
    obj(vec![(
        "runs",
        arr(vec![obj(vec![
            ("text", s(text)),
            (
                "navigationEndpoint",
                obj(vec![(
                    "browseEndpoint",
                    obj(vec![
                        ("browseId", s("UCartist")),
                        (
                            "browseEndpointContextSupportedConfigs",
                            obj(vec![(
                                "browseEndpointContextMusicConfig",
                                obj(vec![("pageType", s("MUSIC_PAGE_TYPE_ARTIST"))]),
                            )]),
                        ),
                    ]),
                )]),
            ),
        ])]),
    )])
}

fn two_row_item() -> JsonValue {
    obj(vec![
        ("title", runs("Heavy track")),
        ("subtitle", artist_run("Artist")),
        (
            "navigationEndpoint",
            obj(vec![(
                "watchEndpoint",
                obj(vec![
                    ("videoId", s("abcdef12345")),
                    ("playlistId", s("RDAMVMabcdef12345")),
                    ("params", s("wAEB")),
                    (
                        "watchEndpointMusicSupportedConfigs",
                        obj(vec![(
                            "watchEndpointMusicConfig",
                            obj(vec![("musicVideoType", s("MUSIC_VIDEO_TYPE_ATV"))]),
                        )]),
                    ),
                ]),
            )]),
        ),
    ])
}

fn panel_item(title: &str, artist: &str, video_id: &str) -> JsonValue {
    obj(vec![
        ("title", runs(title)),
        ("longBylineText", artist_run(artist)),
        ("lengthText", runs("3:21")),
        (
            "navigationEndpoint",
            obj(vec![(
                "watchEndpoint",
                obj(vec![
                    ("videoId", s(video_id)),
                    ("playlistId", s(&format!("RDAMVM{video_id}"))),
                ]),
            )]),
        ),
    ])
}

#[test]
fn test_parse_home_two_row_track_item() {
    let item = two_row_item();
    let track = parse_two_row_track_item(&item).unwrap();
    assert_eq!(track.id, "abcdef12345");
    assert_eq!(track.kind, "SONG");
    assert_eq!(track.title, "Heavy track");
    assert_eq!(track.artist, "Artist");
    assert_eq!(track.playlist_id, "RDAMVMabcdef12345");
    assert_eq!(track.playlist_params, "wAEB");
}

#[test]
fn test_parse_playlist_panel_track_item() {
    let item = panel_item("Queued track", "Queued artist", "queued12345");
    let track = parse_playlist_panel_track_item(&item).unwrap();
    assert_eq!(track.id, "queued12345");
    assert_eq!(track.title, "Queued track");
    assert_eq!(track.artist, "Queued artist");
    assert_eq!(track.duration, 201);
    assert_eq!(track.playlist_id, "RDAMVMqueued12345");
}

#[test]
fn test_public_channel_playlists_skip_non_playlist_tiles() {
    let data = obj(vec![(
        "musicCarouselShelfRenderer",
        obj(vec![
            (
                "header",
                obj(vec![(
                    "musicCarouselShelfBasicHeaderRenderer",
                    obj(vec![(
                        "title",
                        obj(vec![(
                            "runs",
                            arr(vec![obj(vec![
                                ("text", s("Playlists")),
                                (
                                    "navigationEndpoint",
                                    obj(vec![(
                                        "browseEndpoint",
                                        obj(vec![
                                            ("browseId", s("UC12345678901234567890")),
                                            ("params", s("playlist-params")),
                                        ]),
                                    )]),
                                ),
                            ])]),
                        )]),
                    )]),
                )]),
            ),
            (
                "contents",
                arr(vec![
                    obj(vec![(
                        "musicTwoRowItemRenderer",
                        obj(vec![
                            ("title", runs("Public playlist")),
                            (
                                "navigationEndpoint",
                                obj(vec![(
                                    "browseEndpoint",
                                    obj(vec![("browseId", s("VLPL1234567890"))]),
                                )]),
                            ),
                        ]),
                    )]),
                    obj(vec![(
                        "musicTwoRowItemRenderer",
                        obj(vec![
                            ("title", runs("Album tile")),
                            (
                                "navigationEndpoint",
                                obj(vec![(
                                    "browseEndpoint",
                                    obj(vec![("browseId", s("MPREb_abc"))]),
                                )]),
                            ),
                        ]),
                    )]),
                ]),
            ),
        ]),
    )]);

    let playlists = parse_public_channel_playlists(&data);
    assert_eq!(playlists.len(), 1);
    assert_eq!(playlists[0].id, "PL1234567890");
    assert_eq!(public_channel_playlist_params(&data), vec!["playlist-params"]);
}

#[test]
fn test_best_thumbnail_reads_nested_thumbnail_arrays() {
    let data = obj(vec![(
        "thumbnail",
        obj(vec![(
            "musicThumbnailRenderer",
            obj(vec![(
                "thumbnail",
                obj(vec![(
                    "thumbnails",
                    arr(vec![
                        obj(vec![("url", s("https://img.example/small.jpg")), ("width", num(60))]),
                        obj(vec![("url", s("https://img.example/large.jpg")), ("width", num(544))]),
                    ]),
                )]),
            )]),
        )]),
    )]);

    assert_eq!(best_thumbnail(&data), "https://img.example/large.jpg");
}

fn carousel(title: &str, items: Vec<JsonValue>) -> JsonValue {
    obj(vec![(
        "musicCarouselShelfRenderer",
        obj(vec![
            (
                "header",
                obj(vec![(
                    "musicCarouselShelfBasicHeaderRenderer",
                    obj(vec![("title", runs(title))]),
                )]),
            ),
            (
                "contents",
                arr(items.into_iter().map(|item| obj(vec![("musicTwoRowItemRenderer", item)])).collect()),
            ),
        ]),
    )])
}

#[test]
fn home_shelves_need_a_title_and_tracks() {
    let data = obj(vec![(
        "contents",
        arr(vec![carousel("Quick picks", vec![two_row_item(), two_row_item()]), carousel("", vec![two_row_item()]), carousel("Empty", vec![])]),
    )]);
    let sections = home_sections(&data);
    assert_eq!(sections.len(), 1);
    assert_eq!(sections[0].title, "Quick picks");
    assert_eq!(sections[0].layout, "grid");
    assert_eq!(sections[0].tracks.len(), 1);
    assert_eq!(sections[0].tracks[0].id, "abcdef12345");
}

#[test]
fn home_sections_fall_back_to_the_section_list() {
    let section = obj(vec![
        ("header", obj(vec![("title", obj(vec![("text", s("Listen again"))]))])),
        ("items", arr(vec![obj(vec![("musicTwoRowItemRenderer", two_row_item())])])),
    ]);
    let data = obj(vec![("sectionListRenderer", obj(vec![("contents", arr(vec![section]))]))]);
    let sections = home_sections(&data);
    assert_eq!(sections.len(), 1);
    assert_eq!(sections[0].title, "Listen again");
    assert!(home_sections(&obj(vec![])).is_empty());
}

#[test]
fn mix_starts_at_the_seed_and_drops_repeats() {
    let data = obj(vec![(
        "contents",
        arr(vec![
            obj(vec![("playlistPanelVideoRenderer", panel_item("Before", "A", "before12345"))]),
            obj(vec![("playlistPanelVideoRenderer", panel_item("Seed", "A", "seedseed123"))]),
            obj(vec![("playlistPanelVideoRenderer", panel_item(" seed ", "a", "seedcopy123"))]),
            obj(vec![("playlistPanelVideoRenderer", panel_item("After", "B", "after123456"))]),
        ]),
    )]);
    let tracks = mix_tracks(&data, "seedseed123");
    let ids: Vec<&str> = tracks.iter().map(|t| t.id.as_str()).collect();
    assert_eq!(ids, vec!["seedseed123", "after123456", "before12345"]);
    let unknown = mix_tracks(&data, "zzzzzzzzzzz");
    assert_eq!(unknown[0].id, "before12345");
}

#[test]
fn account_profile_falls_back() {
    let data = obj(vec![
        ("accountName", obj(vec![("text", s("  "))])),
        ("channelHandle", obj(vec![("text", s("@me"))])),
    ]);
    let (name, picture) = account_profile(&data);
    assert_eq!(name, "@me");
    assert_eq!(picture, "");
    let (name, _) = account_profile(&obj(vec![]));
    assert_eq!(name, "YouTube Music account");
}

#[test]
fn search_reports_failures_only_without_results() {
    let both_failed = search_results(Err("down".to_string()), Err("slow".to_string()));
    assert_eq!(both_failed.err().unwrap(), "Search failed: songs: down; videos: slow");
    let empty = search_results(Ok(obj(vec![])), Err("slow".to_string()));
    assert_eq!(empty.err().unwrap(), "Search failed: videos: slow");
    assert!(search_results(Ok(obj(vec![])), Ok(obj(vec![]))).unwrap().is_empty());
    assert_eq!(search_query("  a "), None);
    assert_eq!(search_query(" ab "), Some("ab".to_string()));
    assert_eq!(search_query("é"), Some("é".to_string()));
}

#[test]
fn created_playlist_needs_an_id() {
    let made = created_playlist(&obj(vec![("playlistId", s("PLnew"))]), "Mine").unwrap();
    assert_eq!(made.id, "PLnew");
    assert_eq!(made.url, "https://music.youtube.com/playlist?list=PLnew");
    assert_eq!(made.title, "Mine");
    assert_eq!(
        created_playlist(&obj(vec![]), "Mine").err().unwrap(),
        "YouTube Music did not return a playlist id"
    );
}

#[test]
fn liked_tracks_report_each_browse_id() {
    assert_eq!(liked_tracks("VLLM", Err("boom".to_string())).err().unwrap(), "VLLM: boom");
    assert_eq!(liked_tracks("LM", Ok(obj(vec![]))).err().unwrap(), "LM: no tracks");
    let sections = library_sections(&obj(vec![]), None);
    assert!(sections.is_empty());
}

#[test]
fn paging_stops_at_the_limit_or_an_empty_page() {
    assert_eq!(page_continuation(10, 250, true, Some("t".to_string())), Some("t".to_string()));
    assert_eq!(page_continuation(250, 250, true, Some("t".to_string())), None);
    assert_eq!(page_continuation(10, 250, false, Some("t".to_string())), None);
    assert_eq!(page_continuation(10, 250, true, None), None);
}

#[test]
fn mix_requests_are_checked() {
    assert_eq!(mix_request("abc", "", "").err().unwrap(), "Invalid video id");
    assert_eq!(
        mix_request("abcdef12345", " VLPL12 ", " wAEB ").unwrap(),
        ("PL12".to_string(), "wAEB".to_string())
    );
    assert_eq!(mix_request("abcdef12345", "  ", "").unwrap(), (String::new(), String::new()));
    assert_eq!(mix_request("abcdef12345", "", "a b").err().unwrap(), "Invalid playlist params");
}

#[test]
fn merging_json_adds_and_merges_keys() {
    let target = obj(vec![("a", obj(vec![("x", num(1))])), ("b", s("keep"))]);
    let source = obj(vec![("a", obj(vec![("y", num(2))])), ("c", s("new"))]);
    match merge_json(target, source) {
        JsonValue::Object(entries) => {
            let keys: Vec<&str> = entries.iter().map(|e| e.0.as_str()).collect();
            assert_eq!(keys, vec!["a", "b", "c"]);
            match &entries[0].1 {
                JsonValue::Object(inner) => assert_eq!(inner.len(), 2),
                _ => panic!("not an object"),
            }
        },
        _ => panic!("not an object"),
    }
    match merge_json(s("x"), num(3)) {
        JsonValue::Number(Some(3)) => {},
        _ => panic!("not replaced"),
    }
}
