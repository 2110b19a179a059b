use vaktum::config::{valid, AppConfig};

#[test]
fn defaults_are_safe_and_meaningful() {
    let config = AppConfig::default();
    assert_eq!(config.hotkey, "Ctrl+Shift+Space");
    assert_eq!(config.microphone, "default");
    assert_eq!(config.language, "en");
    assert!(config.history_enabled);
    assert!(!config.model.is_empty());
}

#[test]
fn invalid_configuration_is_rejected() {
    let mut config = AppConfig::default();
    config.hotkey.clear();
    assert!(!valid(&config));
}

use vaktum::config::{config_path, data_dir, default_model_path, join_path, load};

fn sample(microphone: &str) -> AppConfig {
    AppConfig {
        hotkey: "Alt+Space".to_owned(),
        microphone: microphone.to_owned(),
        language: "en".to_owned(),
        model: "model.bin".to_owned(),
        history_enabled: false,
    }
}

#[test]
fn defaults_for_an_empty_environment_are_valid() {
    let config = AppConfig::default();
    assert_eq!(config.model, join_path(&default_model_path(None, None, None), '/'));
    assert!(valid(&config));
    let with_environment = AppConfig::with_model(join_path(
        &default_model_path(None, Some("C:\\Users\\u\\AppData\\Local".to_owned()), None),
        '\\',
    ));
    assert_eq!(with_environment.model, "C:\\Users\\u\\AppData\\Local\\Vaktum\\models\\ggml-base.en.bin");
    assert!(valid(&with_environment));
}

#[test]
fn blank_fields_are_invalid() {
    assert!(valid(&sample("default")));
    assert!(valid(&sample("wasapi:test")));
    assert!(!valid(&sample("  ")));
    let mut config = sample("default");
    config.language = "\t".to_owned();
    assert!(!valid(&config));
    let mut config = sample("default");
    config.model = String::new();
    assert!(!valid(&config));
}

#[test]
fn with_model_sets_the_defaults() {
    let config = AppConfig::with_model("C:\\models\\custom.bin".to_owned());
    assert_eq!(config.hotkey, "Ctrl+Shift+Space");
    assert_eq!(config.model, "C:\\models\\custom.bin");
    assert!(config.history_enabled);
}

#[test]
fn data_directory_prefers_local_app_data() {
    assert_eq!(data_dir(Some("C:\\Data".to_owned()), Some("/home/u".to_owned())), vec!["C:\\Data", "Vaktum"]);
    assert_eq!(data_dir(None, Some("/home/u".to_owned())), vec!["/home/u", ".vaktum"]);
    assert_eq!(data_dir(None, None), vec![".vaktum"]);
    assert_eq!(config_path(None, Some("/home/u".to_owned())), vec!["/home/u", ".vaktum", "config.json"]);
}

#[test]
fn model_override_must_be_non_empty() {
    assert_eq!(default_model_path(Some("m.bin".to_owned()), None, None), vec!["m.bin"]);
    assert_eq!(
        default_model_path(Some(String::new()), Some("L".to_owned()), None),
        vec!["L", "Vaktum", "models", "ggml-base.en.bin"]
    );
    assert_eq!(join_path(&vec!["a".to_owned(), "b".to_owned()], '\\'), "a\\b");
}

#[test]
fn invalid_stored_configuration_falls_back() {
    let fallback = sample("default");
    let mut stored = sample("wasapi:x");
    assert_eq!(load(Some(stored.clone()), fallback.clone()), stored);
    stored.hotkey = " ".to_owned();
    assert_eq!(load(Some(stored), fallback.clone()), fallback);
    assert_eq!(load(None, fallback.clone()), fallback);
}
