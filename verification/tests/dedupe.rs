use yolite::account::playlist_hint_score;
use yolite::dedupe::{dedupe_mix_tracks, dedupe_playlists, dedupe_tracks};
use yolite::ids::{validate_channel_id, validate_user_id};
use yolite::models::{PlaylistPayload, TrackPayload};

fn track(id: &str, title: &str, artist: &str) -> TrackPayload {
    TrackPayload {
        id: id.to_string(),
        kind: "SONG".to_string(),
        title: title.to_string(),
        artist: artist.to_string(),
        artist_id: None,
        album: String::new(),
        duration: 0,
        thumbnail: String::new(),
        url: String::new(),
        playlist_id: String::new(),
        playlist_params: String::new(),
    }
}

fn ids(tracks: &[TrackPayload]) -> Vec<&str> {
    tracks.iter().map(|t| t.id.as_str()).collect()
}

#[test]
fn dedupe_keeps_the_first_of_each_id() {
    let tracks = vec![
        track("a", "A", "x"),
        track("", "Blank", "x"),
        track("b", "B", "x"),
        track("a", "A again", "x"),
        track("c", "C", "x"),
    ];
    assert_eq!(ids(&dedupe_tracks(tracks, 10)), vec!["a", "b", "c"]);
    let again = vec![track("a", "", ""), track("b", "", ""), track("a", "", ""), track("c", "", "")];
    assert_eq!(ids(&dedupe_tracks(again, 2)), vec!["a", "b"]);
    assert!(dedupe_tracks(vec![], 5).is_empty());
}

#[test]
fn dedupe_playlists_keeps_the_first_of_each_id() {
    let p = |id: &str, title: &str| PlaylistPayload {
        id: id.to_string(),
        title: title.to_string(),
        thumbnail: String::new(),
        url: String::new(),
    };
    let kept = dedupe_playlists(vec![p("PL1", "one"), p("", "none"), p("PL1", "dup"), p("PL2", "two")], 250);
    let titles: Vec<&str> = kept.iter().map(|p| p.title.as_str()).collect();
    assert_eq!(titles, vec!["one", "two"]);
}

#[test]
fn mix_dedupe_compares_titles_and_artists() {
    let tracks = vec![
        track("a", "Song", "Band"),
        track("b", " song ", "BAND"),
        track("c", "", ""),
        track("d", "", ""),
        track("a", "Other", "Band"),
        track("e", "Song", "Other band"),
    ];
    assert_eq!(ids(&dedupe_mix_tracks(tracks, 80)), vec!["a", "c", "d", "e"]);
    let many: Vec<TrackPayload> = (0..100).map(|i| track(&format!("id{i}"), &format!("t{i}"), "")).collect();
    assert_eq!(dedupe_mix_tracks(many, 80).len(), 80);
}

#[test]
fn checked_ids_check_again_as_themselves() {
    let user = validate_user_id(" /115266920129326433551/ ").unwrap();
    assert_eq!(validate_user_id(&user).unwrap(), user);
    let channel = validate_channel_id("https://www.youtube.com/channel/UC12345678901234567890/").unwrap();
    assert_eq!(validate_channel_id(&channel).unwrap(), channel);
    assert_eq!(validate_user_id("").unwrap(), "");
}

#[test]
fn every_hint_title_counts_once() {
    let titles = [
        "liked music", "2025 RECAP", "Jordy Playlist", "dancing", "Liked Songs (Spotify)", "rock", "Space Kees", "ROCK",
    ];
    let playlists: Vec<PlaylistPayload> = titles
        .iter()
        .map(|t| PlaylistPayload { id: "PL".to_string(), title: t.to_string(), thumbnail: String::new(), url: String::new() })
        .collect();
    assert_eq!(playlist_hint_score(&playlists), 7);
}
