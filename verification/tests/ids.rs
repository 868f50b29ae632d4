use yolite::ids::{
    browser_cookie_sources, extract_user_ids_from_account_page, is_supported_playlist_id,
    normalize_channel_id, normalize_playlist_id, normalize_user_id, valid_playlist_params,
    valid_video_id, validate_browser_source, validate_channel_id, validate_playlist_title,
    validate_user_id, CHANNEL_ID_FORMAT, INVALID_PLAYLIST_ID, MUSIC_COOKIE_IMPORT_PROBE_URL,
    PLAYLIST_TITLE_LENGTH, UNSUPPORTED_BROWSER, USER_ID_FORMAT,
};

#[test]
fn test_valid_video_id() {
    assert!(valid_video_id("dQw4w9WgXcQ"));
    assert!(valid_video_id("abcdef"));
    assert!(!valid_video_id("abc"));
    assert!(!valid_video_id("abc;rm -rf"));
}

#[test]
fn test_normalize_playlist_id() {
    assert_eq!(
        normalize_playlist_id("VLPL123_abc-def").unwrap(),
        "PL123_abc-def"
    );
    assert_eq!(normalize_playlist_id("LM").unwrap(), "LM");
    assert!(normalize_playlist_id("").is_err());
    assert!(normalize_playlist_id("PL123;rm").is_err());
}

#[test]
fn test_validate_channel_id_rejects_user_id() {
    assert_eq!(
        validate_channel_id("https://www.youtube.com/channel/UC12345678901234567890").unwrap(),
        "UC12345678901234567890"
    );
    assert!(validate_channel_id("BYCrdMbiZRv2jBUKbJCDHw").is_err());
}

#[test]
fn test_extract_user_ids_from_account_page_reads_brand_urls() {
    let ids = extract_user_ids_from_account_page(
        r#"href=\"\/b\/115266920129326433551\/settings\" href="%2Fb%2F115266920129326433551%2F""#,
    );

    assert_eq!(ids, vec!["115266920129326433551"]);
}

#[test]
fn test_cookie_import_probe_uses_supported_youtube_url() {
    assert!(MUSIC_COOKIE_IMPORT_PROBE_URL.starts_with("https://music.youtube.com/"));
}

#[test]
fn video_id_is_six_safe_characters_or_more() {
    assert!(valid_video_id("a-b_c9"));
    assert!(!valid_video_id("a-b_c"));
    assert!(!valid_video_id("abcdéf"));
    assert!(!valid_video_id("abc def"));
    assert!(!valid_video_id(""));
}

#[test]
fn playlist_id_loses_vl_and_whitespace() {
    assert_eq!(normalize_playlist_id("  VLRDxyz ").unwrap(), "RDxyz");
    assert_eq!(normalize_playlist_id("VL").unwrap_err(), INVALID_PLAYLIST_ID);
    assert_eq!(normalize_playlist_id("VLx").unwrap_err(), INVALID_PLAYLIST_ID);
    assert_eq!(normalize_playlist_id("OLAK5uy").unwrap(), "OLAK5uy");
}

#[test]
fn playlist_params_allow_percent() {
    assert!(valid_playlist_params("wAEB%3D_-"));
    assert!(valid_playlist_params(""));
    assert!(!valid_playlist_params("a b"));
    assert!(!valid_playlist_params("a&b"));
}

#[test]
fn playlist_title_is_trimmed_and_bounded() {
    assert_eq!(validate_playlist_title("  Road trip  ").unwrap(), "Road trip");
    assert_eq!(validate_playlist_title("   ").unwrap_err(), PLAYLIST_TITLE_LENGTH);
    let long = "é".repeat(81);
    assert_eq!(validate_playlist_title(&long).unwrap_err(), PLAYLIST_TITLE_LENGTH);
    let just = "é".repeat(80);
    assert_eq!(validate_playlist_title(&just).unwrap(), just);
}

#[test]
fn user_id_must_be_a_brand_account_id() {
    assert_eq!(normalize_user_id(" /115266920129326433551/ "), "115266920129326433551");
    assert_eq!(validate_user_id("").unwrap(), "");
    assert_eq!(validate_user_id(" / ").unwrap(), "");
    assert_eq!(
        validate_user_id("/115266920129326433551/").unwrap(),
        "115266920129326433551"
    );
    assert_eq!(validate_user_id("1234567890123456789").unwrap_err(), USER_ID_FORMAT);
    assert_eq!(validate_user_id("12345678901234567890123").unwrap_err(), USER_ID_FORMAT);
    assert_eq!(validate_user_id("BYCrdMbiZRv2jBUKbJCDHw").unwrap_err(), USER_ID_FORMAT);
}

#[test]
fn channel_id_normalization() {
    assert_eq!(normalize_channel_id("MPLAUC12345678901234567890/"), "UC12345678901234567890");
    assert_eq!(
        normalize_channel_id("https://x/channel/a/channel/UC12345678901234567890"),
        "UC12345678901234567890"
    );
    assert_eq!(validate_channel_id("  ").unwrap(), "");
    assert_eq!(validate_channel_id("UC123").unwrap_err(), CHANNEL_ID_FORMAT);
}

#[test]
fn supported_playlist_ids() {
    assert!(is_supported_playlist_id("LM"));
    assert!(is_supported_playlist_id("SE"));
    assert!(is_supported_playlist_id("PLx"));
    assert!(is_supported_playlist_id("RDAMVM"));
    assert!(is_supported_playlist_id("OLAK"));
    assert!(!is_supported_playlist_id("MPREb_abc"));
    assert!(!is_supported_playlist_id("LMX"));
}

#[test]
fn browser_sources() {
    assert_eq!(browser_cookie_sources().len(), 7);
    assert!(validate_browser_source("firefox").is_ok());
    assert!(validate_browser_source("vivaldi").is_ok());
    assert_eq!(validate_browser_source("safari").unwrap_err(), UNSUPPORTED_BROWSER);
    assert!(validate_browser_source("Firefox").is_err());
}

#[test]
fn account_page_ids_are_sorted_and_distinct() {
    let ids = extract_user_ids_from_account_page(
        "/b/222222222222222222222/ /channel/111111111111111111111 /b/222222222222222222222 \\u002Fb\\u002F33333333333333333333 /b/123",
    );
    assert_eq!(
        ids,
        vec![
            "111111111111111111111",
            "222222222222222222222",
            "33333333333333333333"
        ]
    );
}
