use yolite::discord::{discord_presence, discord_text};
use yolite::plugins::{default_plugin_version, plugin_payload, sort_plugins, PluginManifest};
use yolite::remote::remote_controller_payload;

#[test]
fn discord_texts_are_trimmed_and_cut() {
    assert_eq!(discord_text("  Song  ", "Unknown song"), "Song");
    assert_eq!(discord_text("   ", "Unknown song"), "Unknown song");
    assert_eq!(discord_text(&"é".repeat(200), "x").chars().count(), 128);
}

#[test]
fn discord_presence_fields() {
    let p = discord_presence(" Song ", "", "abcdef12345", "https://img/x.jpg", true);
    assert_eq!(p.details, "Song");
    assert_eq!(p.state, "Paused · Unknown artist");
    assert_eq!(p.track_url, Some("https://music.youtube.com/watch?v=abcdef12345".to_string()));
    assert_eq!(p.large_image, Some("https://img/x.jpg".to_string()));
    let q = discord_presence("", "Band", "bad id", "file:///x.jpg", false);
    assert_eq!(q.details, "Unknown song");
    assert_eq!(q.state, "by Band");
    assert_eq!(q.track_url, None);
    assert_eq!(q.large_image, None);
}

fn manifest(name: &str, categories: Vec<&str>) -> PluginManifest {
    PluginManifest {
        name: name.to_string(),
        version: default_plugin_version(),
        description: String::new(),
        discover_categories: categories.into_iter().map(|c| c.to_string()).collect(),
    }
}

#[test]
fn plugin_payloads() {
    assert_eq!(default_plugin_version(), "1.0.0");
    let long = "x".repeat(70);
    let p = plugin_payload(Some("theme"), manifest("  ", vec![" Focus ", "  ", &long]), "body{}");
    assert_eq!(p.id, "theme");
    assert_eq!(p.name, "Unnamed plugin");
    assert_eq!(p.version, "1.0.0");
    assert_eq!(p.css, "body{}");
    assert_eq!(p.discover_categories, vec!["Focus".to_string(), "x".repeat(60)]);
    let many: Vec<String> = (0..40).map(|i| format!("c{i}")).collect();
    let q = plugin_payload(None, manifest("Mine", many.iter().map(|c| c.as_str()).collect()), &"a".repeat(300_000));
    assert_eq!(q.id, "plugin");
    assert_eq!(q.discover_categories.len(), 32);
    assert_eq!(q.css.len(), 256 * 1024);
}

#[test]
fn plugins_sort_by_name_in_any_case() {
    let plugins = vec![
        plugin_payload(Some("1"), manifest("beta", vec![]), ""),
        plugin_payload(Some("2"), manifest("Alpha", vec![]), ""),
        plugin_payload(Some("3"), manifest("BETA", vec![]), ""),
        plugin_payload(Some("4"), manifest("alpha", vec![]), ""),
    ];
    let ids: Vec<String> = sort_plugins(plugins).into_iter().map(|p| p.id).collect();
    assert_eq!(ids, vec!["2", "4", "1", "3"]);
}

#[test]
fn remote_controller_qr_code() {
    assert_eq!(
        remote_controller_payload(None).err(),
        Some("Phone controller is unavailable".to_string())
    );
    let p = remote_controller_payload(Some("http://192.168.1.2:5000/controller/abc".to_string())).unwrap();
    assert_eq!(p.url, "http://192.168.1.2:5000/controller/abc");
    assert!(p.qr_svg.contains("<svg"));
    assert!(p.qr_svg.contains("#111315"));
    assert_eq!(
        remote_controller_payload(Some("x".repeat(5000))).err(),
        Some("data too long".to_string())
    );
}
