use type3arabi::config::{is_chord, reserved_shortcut, Config};
use type3arabi::display::{AllahForm, TanweenStyle};

#[test]
fn chords_that_would_break_typing_are_rejected() {
    for ok in [
        "none",
        "Tab",
        "Shift+Space",
        "Ctrl+Enter",
        "Ctrl+Shift+K",
        "Alt+3",
        "Shift+Tab",
    ] {
        assert!(is_chord(ok), "{ok}");
    }
    for bad in [
        "A",
        "Shift+A",
        "7",
        "Space",
        "Enter",
        "Backspace",
        "Esc",
        "Ctrl+Esc",
        "Win+A",
        "Ctrl+",
        "",
        "Ctrl+F5",
    ] {
        assert!(!is_chord(bad), "{bad}");
    }
}

#[test]
fn windows_shortcuts_are_reserved_with_a_reason() {
    for (chord, why) in [
        ("Ctrl+C", "copy"),
        ("ctrl+v", "paste"),
        ("Control+X", "cut"),
        ("Ctrl+Z", "undo"),
        ("Ctrl+A", "select all"),
        ("Win+Shift+S", "screenshot"),
        ("Shift+Win+S", "screenshot"),
        ("Win+Space", "switch keyboards"),
        ("Win+K", "Win shortcuts"),
        ("Alt+Tab", "switch between windows"),
        ("Alt+F4", "close"),
        ("Ctrl+Shift+T", "reopen"),
        ("Ctrl+Backspace", "delete the previous word"),
    ] {
        let r = reserved_shortcut(chord).unwrap_or_else(|| panic!("{chord} not reserved"));
        assert!(r.en.contains(why), "{chord}: {}", r.en);
        assert!(!r.ar.is_empty());
    }
    for ok in [
        "Ctrl+Alt+A",
        "Shift+Space",
        "Tab",
        "Ctrl+Enter",
        "Ctrl+Shift+K",
        "Alt+3",
        "none",
    ] {
        assert_eq!(reserved_shortcut(ok), None, "{ok}");
    }
}

#[test]
fn to_toml_round_trips() {
    let d = Config::default();
    let (back, w) = Config::parse(&d.to_toml());
    assert!(w.is_empty(), "warnings: {w:?}");
    assert_eq!(back, d);
    let mut c = Config::default();
    c.key_commit_latin = "Ctrl+Shift+L".into();
    c.global_hotkey = "Ctrl+Alt+Q".into();
    c.learning_enabled = false;
    c.excluded_apps = vec!["game.exe".into(), "vim.exe".into()];
    c.candidates_per_page = 9;
    let (back, w) = Config::parse(&c.to_toml());
    assert!(w.is_empty(), "warnings: {w:?}");
    assert_eq!(back, c);
}

#[test]
fn key_chords_are_validated() {
    let (c, w) = Config::parse(
        "[keys]\ncommit_latin = \"Ctrl+Shift+L\"\nopen_tashkeel = \"Hyper+Q\"\ncommit_harakat = \"none\"\n",
    );
    assert_eq!(c.key_commit_latin, "Ctrl+Shift+L");
    assert_eq!(c.key_open_tashkeel, "Tab");
    assert_eq!(c.key_commit_harakat, "none");
    assert_eq!(w.len(), 1);
}

#[test]
fn invalid_values_fall_back() {
    let (c, w) = Config::parse(
        "[style]\nallah_form = \"fancy\"\n[typing]\ncandidates_per_page = 42\nunknown = 1\n",
    );
    assert_eq!(c.allah_form, "shadda");
    assert_eq!(c.candidates_per_page, 7);
    assert_eq!(w.len(), 2);
}

#[test]
fn empty_text_gives_the_defaults() {
    let (c, w) = Config::parse("");
    assert!(w.is_empty());
    assert_eq!(c, Config::default());
}

#[test]
fn style_accessors_follow_the_strings() {
    let (c, _) = Config::parse("[style]\nallah_form = \"plain\"\n");
    assert_eq!(c.allah_form(), AllahForm::Plain);
    assert_eq!(Config::default().tanween(), TanweenStyle::default());
}

#[test]
fn quotes_in_strings_are_dropped_on_write() {
    let mut c = Config::default();
    c.theme = "da\"rk".into();
    let (back, w) = Config::parse(&c.to_toml());
    assert!(w.is_empty());
    assert_eq!(back.theme, "dark");
}

#[test]
fn written_file_layout() {
    let text = Config::default().to_toml();
    let lines: Vec<&str> = text.lines().collect();
    assert_eq!(lines.len(), 55);
    assert!(lines[0].starts_with('#'));
    assert_eq!(lines[1], "             schema = 1");
    assert_eq!(lines[2], "");
    assert_eq!(lines[3], "             [general]");
    assert!(text.ends_with("commit_harakat = \"Ctrl+Enter\"\n"));
}
