use type3arabi::calendar::{civil_date, today};
use type3arabi::config::Config;
use type3arabi::learning_file::encode;
use type3arabi::settings::{
    check_shortcut, inspect_learning, merge_into, open_url, validate, LearningPreview, Settings,
};

fn why(c: &str, k: &str) -> Option<String> {
    check_shortcut(c, k).map(|[_, en]| en)
}

#[test]
fn windows_shortcuts_are_refused_with_the_reason() {
    assert!(why("Ctrl+C", "hotkey").unwrap().contains("copy"));
    assert!(why("Win+Shift+S", "hotkey").unwrap().contains("screenshot"));
    assert!(why("Ctrl+V", "chord").unwrap().contains("paste"));
    assert!(why("A", "chord").unwrap().contains("normal typing"));
    assert_eq!(why("Ctrl+Alt+A", "hotkey"), None);
    assert_eq!(why("Shift+Space", "chord"), None);
}

#[test]
fn defaults_are_valid() {
    assert!(validate(&Settings::from_config(&Config::default())).is_empty());
}

#[test]
fn duplicate_and_invalid_shortcuts_are_rejected() {
    let mut s = Settings::from_config(&Config::default());
    s.key_open_tashkeel = "Shift+Space".into();
    s.key_commit_harakat = "Hyper+Q".into();
    let e = validate(&s);
    assert!(e.iter().any(|m| m.contains("two actions")));
    assert!(e.iter().any(|m| m.starts_with("key_commit_harakat")));
}

#[test]
fn page_size_and_toggle_are_checked() {
    let mut s = Settings::from_config(&Config::default());
    s.candidates_per_page = 12;
    s.mode_toggle = "Alt+Space".into();
    let e = validate(&s);
    assert_eq!(
        e,
        vec![
            "mode_toggle: choose one of the listed toggles".to_string(),
            "candidates_per_page: 5 to 9".to_string()
        ]
    );
}

#[test]
fn merge_keeps_keys_the_ui_does_not_show() {
    let mut c = Config::default();
    c.theme = "dark".into();
    let mut s = Settings::from_config(&Config::default());
    s.numerals = "eastern".into();
    merge_into(s, &mut c);
    assert_eq!(c.theme, "dark");
    assert_eq!(c.numerals, "eastern");
}

#[test]
fn only_known_links_open() {
    assert!(open_url("https://evil.example/").is_err());
}

#[test]
fn project_links_open() {
    assert_eq!(open_url("https://type3arabi.com/"), Ok(()));
    assert_eq!(open_url("https://type3arabi.com"), Err("not an allowed link".to_string()));
}

#[test]
fn today_is_an_iso_date() {
    let secs = std::time::SystemTime::now()
        .duration_since(std::time::UNIX_EPOCH)
        .map(|d| d.as_secs())
        .unwrap_or(0);
    let t = today(secs);
    assert_eq!(t.len(), 10);
    assert!(t.starts_with("20") && &t[4..5] == "-" && &t[7..8] == "-");
}

#[test]
fn civil_dates() {
    assert_eq!(today(0), "1970-01-01");
    assert_eq!(today(86_399), "1970-01-01");
    assert_eq!(today(951_782_400), "2000-02-29");
    assert_eq!(today(1_709_251_199), "2024-02-29");
    assert_eq!(civil_date(19_783), (2024, 3, 1));
}

#[test]
fn preview_of_a_learning_file() {
    let bytes = encode(&[], Some("schema = 1\n"));
    assert_eq!(inspect_learning(&bytes), Ok(LearningPreview { records: 0, has_settings: true }));
    assert!(inspect_learning(b"nope").is_err());
}
