use prompt_manager::json::Json;
use prompt_manager::settings::{config_dir, default_library_root, settings_fields, settings_path};

const SEP: char = std::path::MAIN_SEPARATOR;

#[test]
fn config_folder_choice() {
    assert_eq!(config_dir(true, Some("C:\\Users\\u\\AppData\\Roaming"), Some("/home/u")), format!("C:\\Users\\u\\AppData\\Roaming{}PromptManager", SEP));
    assert_eq!(config_dir(false, Some("ignored"), Some("/home/u")), format!("/home/u/.config{}PromptManager", SEP));
    assert_eq!(config_dir(true, None, None), format!(".{}PromptManager", SEP));
}

#[test]
fn settings_file_location() {
    assert_eq!(settings_path("/cfg"), format!("/cfg{}settings.json", SEP));
    assert_eq!(settings_path("/cfg/"), "/cfg/settings.json");
}

#[test]
fn library_root_choice() {
    let settings = r#"{"library_dir": "/data/lib"}"#;
    assert_eq!(default_library_root(Some("/env/lib"), "/cfg", Some(settings)), "/env/lib");
    assert_eq!(default_library_root(Some("  "), "/cfg", Some(settings)), "/data/lib");
    assert_eq!(default_library_root(None, "/cfg", Some(r#"{"library_dir": " "}"#)), format!("/cfg{}library", SEP));
    assert_eq!(default_library_root(None, "/cfg", Some("not json")), format!("/cfg{}library", SEP));
    assert_eq!(default_library_root(None, "/cfg", None), format!("/cfg{}library", SEP));
}

#[test]
fn text_and_switch_settings_are_read_with_their_rules() {
    let v = Json::parse(
        r#"{"library_dir": "/data/lib", "api_enabled": false, "api_key": "k-1", "shortcut": "ctrl+shift+p",
            "always_on_top": false, "language": "cs", "widget_enabled": true, "regenerate_api_key": true}"#,
    )
    .unwrap();
    let f = settings_fields(&v);
    assert_eq!(f.library_dir.as_deref(), Some("/data/lib"));
    assert_eq!(f.api_enabled, Some(false));
    assert_eq!(f.api_key.as_deref(), Some("k-1"));
    assert_eq!(f.shortcut.as_deref(), Some("ctrl+shift+p"));
    assert_eq!(f.always_on_top, Some(false));
    assert_eq!(f.language.as_deref(), Some("cs"));
    assert_eq!(f.widget_enabled, Some(true));
    assert!(f.regenerate_api_key);

    // blank, empty, unknown and mistyped values keep the defaults
    let v = Json::parse(
        r#"{"library_dir": "  ", "api_enabled": "yes", "api_key": "", "shortcut": "", "language": "fr",
            "widget_enabled": 1, "regenerate_api_key": false}"#,
    )
    .unwrap();
    let f = settings_fields(&v);
    assert_eq!(f.library_dir, None);
    assert_eq!(f.api_enabled, None);
    assert_eq!(f.api_key, None);
    assert_eq!(f.shortcut, None);
    assert_eq!(f.always_on_top, None);
    assert_eq!(f.language, None);
    assert_eq!(f.widget_enabled, None);
    assert!(!f.regenerate_api_key);
}
