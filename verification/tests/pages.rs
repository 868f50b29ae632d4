use yolite::innertube::{
    check_required_config, config_str, config_text_or, extract_json_object, innertube_request_with,
    request_context, ytcfg_objects,
};
use yolite::json::JsonValue;
use yolite::library::{next_playlist_browse, playlist_browse_request, PlaylistBrowse};

fn s(text: &str) -> JsonValue {
    JsonValue::Str(text.to_string())
}

fn obj(entries: Vec<(&str, JsonValue)>) -> JsonValue {
    JsonValue::Object(entries.into_iter().map(|(k, v)| (k.to_string(), v)).collect())
}

fn field<'a>(value: &'a JsonValue, key: &str) -> Option<&'a JsonValue> {
    match value {
        JsonValue::Object(entries) => entries.iter().find(|e| e.0 == key).map(|e| &e.1),
        _ => None,
    }
}

#[test]
fn json_objects_are_read_whole() {
    let source = r#"x = {"a": "}", "b": {"c": "\"{"}} tail"#;
    let start = source.find('=').unwrap() + 1;
    let (raw, end) = extract_json_object(source, start).unwrap();
    assert_eq!(raw, r#"{"a": "}", "b": {"c": "\"{"}}"#);
    assert_eq!(&source[end..], " tail");
    assert_eq!(extract_json_object("  x{}", 0), None);
    assert_eq!(extract_json_object("{\"open\": 1", 0), None);
    assert_eq!(extract_json_object("{}", 5), None);
    assert_eq!(extract_json_object("é {\"k\": \"ü}\"}", 2), Some(("{\"k\": \"ü}\"}".to_string(), 15)));
}

#[test]
fn every_ytcfg_object_is_found() {
    let html = r#"<script>ytcfg.set({"A": 1});</script><script>ytcfg.set( {"B": {"C": "}"}} )</script>ytcfg.set(broken"#;
    assert_eq!(ytcfg_objects(html), vec![r#"{"A": 1}"#.to_string(), r#"{"B": {"C": "}"}}"#.to_string()]);
    assert!(ytcfg_objects("no config here").is_empty());
}

fn config() -> Vec<JsonValue> {
    vec![
        obj(vec![
            ("INNERTUBE_API_KEY", s("old-key")),
            ("INNERTUBE_API_VERSION", s("v1")),
            ("INNERTUBE_CLIENT_NAME", s("WEB_REMIX")),
        ]),
        s("not an object"),
        obj(vec![("INNERTUBE_API_KEY", s("key")), ("INNERTUBE_CLIENT_VERSION", s("1.2")), ("HL", s("nl"))]),
    ]
}

#[test]
fn later_config_objects_win() {
    let c = config();
    assert_eq!(config_str(&c, "INNERTUBE_API_KEY"), Ok("key".to_string()));
    assert_eq!(config_str(&c, "GL"), Err("missing config key: GL".to_string()));
    assert_eq!(config_text_or(&c, "GL", "US"), "US");
    assert_eq!(config_text_or(&c, "HL", "en"), "nl");
    assert_eq!(check_required_config(&c), Ok(()));
    assert_eq!(
        check_required_config(&vec![]),
        Err("Could not initialize YouTube Music config: missing INNERTUBE_API_VERSION".to_string())
    );
}

#[test]
fn requests_carry_the_client_context() {
    let body = obj(vec![("browseId", s("FEmusic_home"))]);
    let request = innertube_request_with(
        &config(),
        "browse",
        " 123 ",
        "SAPISID=x",
        Some("SAPISIDHASH 1_ab".to_string()),
        2,
        body,
    )
    .unwrap();
    assert_eq!(request.url, "https://music.youtube.com/youtubei/v1/browse");
    assert_eq!(request.api_key, "key");
    assert!(field(&request.body, "browseId").is_some());
    let context = field(&request.body, "context").unwrap();
    let client = field(context, "client").unwrap();
    match field(client, "gl") {
        Some(JsonValue::Str(gl)) => assert_eq!(gl, "US"),
        _ => panic!("no gl"),
    }
    match field(field(context, "user").unwrap(), "onBehalfOfUser") {
        Some(JsonValue::Str(id)) => assert_eq!(id, "123"),
        _ => panic!("no user"),
    }
    let names: Vec<&str> = request.headers.iter().map(|h| h.0.as_str()).collect();
    assert_eq!(names.last(), Some(&"X-Goog-AuthUser"));
    assert!(request.headers.contains(&("cookie".to_string(), "SAPISID=x".to_string())));
    assert!(request.headers.contains(&("X-Goog-AuthUser".to_string(), "2".to_string())));

    let anonymous = innertube_request_with(&config(), "search", "", "", None, 0, obj(vec![])).unwrap();
    assert_eq!(anonymous.headers.len(), 8);
    assert!(field(field(field(&anonymous.body, "context").unwrap(), "user").unwrap(), "onBehalfOfUser").is_none());
    assert_eq!(
        innertube_request_with(&vec![], "x", "", "", None, 0, obj(vec![])).err(),
        Some("missing config key: INNERTUBE_API_VERSION".to_string())
    );
    match request_context("WEB_REMIX", "1", "US", "en", "") {
        JsonValue::Object(entries) => assert_eq!(entries.len(), 1),
        _ => panic!("not an object"),
    }
}

#[test]
fn library_playlist_browse_order() {
    let channel = "UCabcdefghijklmnopqrstuv";
    let phase = PlaylistBrowse::Liked;
    let request = playlist_browse_request(&phase, channel).unwrap();
    assert_eq!(request.browse_id, "FEmusic_liked_playlists");
    assert!(request.params.is_none() && !request.channel_page);
    assert!(matches!(next_playlist_browse(PlaylistBrowse::Liked, "", vec![]), PlaylistBrowse::Done));
    let phase = next_playlist_browse(phase, channel, vec![]);
    let request = playlist_browse_request(&phase, channel).unwrap();
    assert_eq!(request.browse_id, channel);
    assert!(request.params.is_none() && request.channel_page);
    let phase = next_playlist_browse(phase, channel, vec!["p1".to_string(), "p2".to_string(), "p3".to_string()]);
    let request = playlist_browse_request(&phase, channel).unwrap();
    assert_eq!(request.params.as_deref(), Some("p1"));
    assert!(!request.channel_page);
    let phase = next_playlist_browse(phase, channel, vec![]);
    let request = playlist_browse_request(&phase, channel).unwrap();
    assert_eq!(request.params.as_deref(), Some("p2"));
    let phase = next_playlist_browse(phase, channel, vec![]);
    assert!(playlist_browse_request(&phase, channel).is_none());
}
