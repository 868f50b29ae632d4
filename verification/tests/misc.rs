use yolite::controller::{controller_html, safe_download_name, secure_token};
use yolite::desktop::{config_file_override, configure_linux_windowing, global_shortcut_binding};
use yolite::updater::updates_managed_externally_value;

#[test]
fn package_manager_mode_only_accepts_explicit_value() {
    assert!(updates_managed_externally_value(Some("package-manager")));
    assert!(!updates_managed_externally_value(Some("appimage")));
    assert!(!updates_managed_externally_value(None));
}

#[test]
fn test_controller_uses_private_token_and_safe_download_name() {
    let token = secure_token().unwrap();
    assert_eq!(token.len(), 36);
    assert!(token.chars().all(|character| character.is_ascii_hexdigit()));
    assert!(controller_html(&token).contains(&format!("const token=\"{token}\"")));
    let name = safe_download_name("Song / ../../ bad?");
    assert!(!name.contains('/'));
    assert!(!name.contains('?'));
}

#[test]
fn download_names() {
    assert_eq!(safe_download_name("Song / ../../ bad?"), "Song  .... bad");
    assert_eq!(safe_download_name("///"), "yolite-song");
    assert_eq!(safe_download_name(&"a".repeat(150)).len(), 100);
    assert_eq!(safe_download_name("Café Été"), "Café Été");
}

#[test]
fn wayland_work_around() {
    assert!(configure_linux_windowing(true, false));
    assert!(!configure_linux_windowing(true, true));
    assert!(!configure_linux_windowing(false, false));
}

#[test]
fn hotkey_bindings() {
    assert_eq!(global_shortcut_binding("next", " Ctrl+N "), Some("Ctrl+N".to_string()));
    assert_eq!(global_shortcut_binding("next", "  "), None);
    assert_eq!(global_shortcut_binding("quit", "Ctrl+Q"), None);
}

#[test]
fn config_override_names_the_file() {
    assert_eq!(
        config_file_override(Some("/tmp/yolite/config.json")),
        Some("/tmp/yolite/config.json".to_string())
    );
    assert_eq!(config_file_override(Some("")), None);
    assert_eq!(config_file_override(None), None);
}
