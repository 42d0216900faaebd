use type3arabi::hotkey::parse;
use type3arabi::ids::{guid_string, CLSID_TIP, GUID_PROFILE, LANGID, LEGACY_LANGIDS};
use type3arabi::keyrouter::Key;
use type3arabi::keys::{key_of_vk, latin_layout, mods_held, us_fallback};
use type3arabi::search::hamza_key;
use type3arabi::ui::{letter_spans, MARK_PALETTE_KEYS};

#[test]
fn parses_defaults_and_rejects_bare_keys() {
    let h = parse("Ctrl+Alt+A").unwrap();
    assert!(h.ctrl && h.alt && !h.shift && !h.win && h.vk == 0x41);
    assert_eq!(parse("win+shift+space").unwrap().vk, 0x20);
    assert_eq!(parse("Ctrl+F9").unwrap().vk, 0x78);
    assert!(parse("Shift+A").is_err());
    assert!(parse("A").is_err());
    assert!(parse("Ctrl+Hyper+A").is_err());
}

#[test]
fn us_fallback_letters_digits_and_caps() {
    assert_eq!(us_fallback(0x32, false, false), Some('m'));
    assert_eq!(us_fallback(0x32, true, false), Some('M'));
    assert_eq!(us_fallback(0x32, false, true), Some('M'));
    assert_eq!(us_fallback(0x32, true, true), Some('m'));
    assert_eq!(us_fallback(0x04, false, true), Some('3'));
    assert_eq!(us_fallback(0x08, false, false), Some('7'));
    assert_eq!(us_fallback(0x28, false, false), Some('\''));
    assert_eq!(us_fallback(0x3B, false, false), None);
}

#[test]
fn letter_spans_keep_marks_with_their_letter() {
    let word = "\u{0639}\u{064E}\u{0644}\u{0651}\u{064E}\u{0645}\u{064E}";
    assert_eq!(letter_spans(word), vec![(0, 2), (2, 5), (5, 7)]);
    assert!(letter_spans("").is_empty());
}

#[test]
fn palette_keys_match_router() {
    assert_eq!(
        MARK_PALETTE_KEYS.to_vec(),
        vec!['a', 'u', 'i', 'o', 'w', 'A', 'U', 'I', '^', 'x']
    );
}

#[test]
fn hamza_key_folds_alef_seats_only() {
    assert_eq!(hamza_key("أكتب"), "اكتب");
    assert_eq!(hamza_key("إن"), "ان");
    assert_eq!(hamza_key("آسف"), "اسف");
    assert_eq!(hamza_key("سؤال"), "سؤال");
}

#[test]
fn guid_text_matches_docs() {
    assert_eq!(guid_string(CLSID_TIP), "{8A4B9277-1E2E-45E0-92A2-83FED833D8BF}");
    assert_eq!(guid_string(GUID_PROFILE), "{90D49398-54D3-4F08-9C15-0B38D0820A87}");
    assert_eq!(LANGID & 0x3FF, 0x01);
    assert!(LEGACY_LANGIDS.iter().all(|l| l & 0x3FF == 0x01));
    assert!(LEGACY_LANGIDS.contains(&LANGID));
}

#[test]
fn virtual_keys_the_router_names() {
    assert_eq!(key_of_vk(0x10, None), Key::Modifier);
    assert_eq!(key_of_vk(0xA3, Some('x')), Key::Modifier);
    assert_eq!(key_of_vk(0x20, Some(' ')), Key::Space);
    assert_eq!(key_of_vk(0x0D, None), Key::Enter);
    assert_eq!(key_of_vk(0x2E, None), Key::Delete);
    assert_eq!(key_of_vk(0x63, None), Key::NumpadDigit('3'));
    assert_eq!(key_of_vk(0x41, Some('a')), Key::Char('a'));
    assert_eq!(key_of_vk(0x70, None), Key::Other);
}

#[test]
fn altgr_is_a_character_modifier() {
    let m = mods_held(false, true, true, false, false, true);
    assert!(m.altgr && !m.ctrl && !m.alt);
    let m = mods_held(true, true, true, false, true, false);
    assert!(!m.altgr && m.ctrl && m.alt && m.win && m.shift);
}

#[test]
fn latin_layout_skips_right_to_left() {
    assert_eq!(latin_layout(&[0x0401_0401, 0x040D_040D, 0x0409_0409]), Some(0x0409_0409));
    assert_eq!(latin_layout(&[0x0401_0401, 0x0429_0429]), None);
}
