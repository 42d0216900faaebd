use type3arabi::arabic::canonical_mark_order;
use type3arabi::tashkeel::{SelectMode, TashkeelAction, TashkeelCmd, TashkeelEditor};

#[test]
fn test_editor_navigation_and_marks() {
    let mut editor = TashkeelEditor::new("علم", vec!["عِلْم".into(), "عَلَم".into()], true);
    assert_eq!(editor.focused_letter, 0);
    assert_eq!(editor.render(), "علم");
    editor.apply_cmd(TashkeelCmd::Kasra);
    assert_eq!(editor.focused_letter, 1);
    assert_eq!(editor.render(), "\u{0639}\u{0650}\u{0644}\u{0645}");
    editor.apply_cmd(TashkeelCmd::ShaddaToggle);
    assert_eq!(editor.focused_letter, 1);
    editor.apply_cmd(TashkeelCmd::Fatha);
    assert_eq!(editor.focused_letter, 2);
    assert_eq!(
        editor.render(),
        "\u{0639}\u{0650}\u{0644}\u{0651}\u{064E}\u{0645}"
    );
    editor.apply_cmd(TashkeelCmd::QuickPick(1));
    assert_eq!(editor.render(), "عِلْم");
    assert_eq!(editor.highlighted_pick, Some(0));
    editor.apply_cmd(TashkeelCmd::PickDown);
    assert_eq!(editor.render(), "عَلَم");
    assert_eq!(editor.highlighted_pick, Some(1));
}

#[test]
fn test_editor_clear_and_back() {
    let mut editor = TashkeelEditor::new("عِلم", vec![], false);
    assert_eq!(editor.focused_letter, 0);
    let action = editor.apply_cmd(TashkeelCmd::ClearOrBack);
    assert_eq!(action, TashkeelAction::Continue);
    assert_eq!(editor.render(), "علم");
    let action2 = editor.apply_cmd(TashkeelCmd::ClearOrBack);
    assert_eq!(action2, TashkeelAction::BackToList);
}

#[test]
fn property_every_command_any_index_never_panics() {
    let mut rng: u64 = 0x9E37_79B9_7F4A_7C15;
    let mut next = || -> usize {
        rng = rng
            .wrapping_mul(6364136223846793005)
            .wrapping_add(1442695040888963407);
        (rng >> 33) as usize
    };
    let words = ["علم", "مرحبا", "و", "الله", "مستشفيات", "لا"];
    let picks = || {
        vec![
            "عَلَّمَ".to_string(),
            "مَرْحَباً".to_string(),
            "و".to_string(),
            String::new(),
        ]
    };
    let modes = [SelectMode::Only, SelectMode::Toggle, SelectMode::Range];
    for word in words {
        let mut e = TashkeelEditor::new(word, picks(), next() % 2 == 0);
        for _ in 0..4000 {
            let cmd = match next() % 28 {
                0 => TashkeelCmd::Fatha,
                1 => TashkeelCmd::Damma,
                2 => TashkeelCmd::Kasra,
                3 => TashkeelCmd::Sukun,
                4 => TashkeelCmd::ShaddaToggle,
                5 => TashkeelCmd::Fathatan,
                6 => TashkeelCmd::Dammatan,
                7 => TashkeelCmd::Kasratan,
                8 => TashkeelCmd::DaggerAlif,
                9 => TashkeelCmd::Clear,
                10 => TashkeelCmd::ClearAll,
                11 => TashkeelCmd::ClearOrBack,
                12 => TashkeelCmd::LetterNext,
                13 => TashkeelCmd::LetterPrev,
                14 => TashkeelCmd::LetterFirst,
                15 => TashkeelCmd::LetterLast,
                16 => TashkeelCmd::ExtendNext,
                17 => TashkeelCmd::ExtendPrev,
                18 => TashkeelCmd::PickUp,
                19 => TashkeelCmd::PickDown,
                20 | 21 => TashkeelCmd::QuickPick((next() % 12) as u8),
                22 => TashkeelCmd::Ignore,
                23 => TashkeelCmd::Back,
                _ => TashkeelCmd::Select((next() % 14) as u8, modes[next() % 3]),
            };
            let _ = e.apply_cmd(cmd);
            let rendered = e.render();
            assert_eq!(canonical_mark_order(&rendered), rendered);
            let sel = e.selection();
            assert!(sel.iter().all(|&i| i < rendered.chars().count().max(1)));
        }
    }
}

#[test]
fn property_random_editor_paths_preserve_mark_order() {
    let commands = [
        TashkeelCmd::Fatha,
        TashkeelCmd::Damma,
        TashkeelCmd::Kasra,
        TashkeelCmd::Sukun,
        TashkeelCmd::ShaddaToggle,
        TashkeelCmd::Fathatan,
        TashkeelCmd::Dammatan,
        TashkeelCmd::Kasratan,
        TashkeelCmd::DaggerAlif,
        TashkeelCmd::Clear,
        TashkeelCmd::LetterNext,
        TashkeelCmd::LetterPrev,
        TashkeelCmd::LetterFirst,
        TashkeelCmd::LetterLast,
        TashkeelCmd::ExtendNext,
        TashkeelCmd::ExtendPrev,
        TashkeelCmd::ClearAll,
        TashkeelCmd::Select(1, SelectMode::Toggle),
        TashkeelCmd::Select(0, SelectMode::Range),
        TashkeelCmd::Select(3, SelectMode::Only),
    ];
    let test_words = ["علم", "مرحبا", "كتاب", "شكرا", "الله", "معلم"];
    let mut rng_state: u64 = 0x12345678;
    let mut next_rand = || -> usize {
        rng_state = rng_state.wrapping_mul(6364136223846793005).wrapping_add(1);
        (rng_state >> 33) as usize
    };
    for word in &test_words {
        let mut editor = TashkeelEditor::new(word, vec![], false);
        for _ in 0..1000 {
            let cmd = commands[next_rand() % commands.len()];
            let _ = editor.apply_cmd(cmd);
            let rendered = editor.render();
            assert_eq!(canonical_mark_order(&rendered), rendered, "word {}", word);
        }
    }
}

#[test]
fn first_letter_selected_on_entry() {
    let e = TashkeelEditor::new("علم", vec![], false);
    assert_eq!(e.focused_letter, 0);
    assert_eq!(e.selection(), vec![0]);
}

#[test]
fn marks_apply_to_every_selected_letter() {
    let mut e = TashkeelEditor::new("علم", vec![], false);
    e.apply_cmd(TashkeelCmd::ExtendNext);
    e.apply_cmd(TashkeelCmd::ExtendNext);
    assert_eq!(e.selection(), vec![0, 1, 2]);
    e.apply_cmd(TashkeelCmd::Fatha);
    assert_eq!(e.render(), "عَلَمَ");
    assert_eq!(e.selection(), vec![0, 1, 2]);
    e.apply_cmd(TashkeelCmd::Select(1, SelectMode::Only));
    e.apply_cmd(TashkeelCmd::ShaddaToggle);
    assert_eq!(
        e.render(),
        "\u{0639}\u{064E}\u{0644}\u{0651}\u{064E}\u{0645}\u{064E}"
    );
    e.apply_cmd(TashkeelCmd::ClearAll);
    assert_eq!(e.render(), "علم");
}

#[test]
fn mouse_range_and_toggle_selection() {
    let mut e = TashkeelEditor::new("كتاب", vec![], false);
    e.apply_cmd(TashkeelCmd::Select(2, SelectMode::Range));
    assert_eq!(e.selection(), vec![0, 1, 2]);
    e.apply_cmd(TashkeelCmd::Select(1, SelectMode::Toggle));
    assert_eq!(e.selection(), vec![0, 2]);
    e.apply_cmd(TashkeelCmd::Select(3, SelectMode::Only));
    assert_eq!(e.selection(), vec![3]);
    assert_eq!(e.focused_letter, 3);
}

#[test]
fn shadda_toggles_back_off() {
    let mut e = TashkeelEditor::new("علم", vec![], false);
    e.apply_cmd(TashkeelCmd::ShaddaToggle);
    assert_eq!(e.render(), "ع\u{0651}لم");
    e.apply_cmd(TashkeelCmd::ShaddaToggle);
    assert_eq!(e.render(), "علم");
}

#[test]
fn loading_then_rendering_gives_the_word_back() {
    let mut e = TashkeelEditor::new("x", vec![], false);
    for w in ["عِلْم", "الل\u{0651}\u{064E}ه", "كتب"] {
        assert_eq!(canonical_mark_order(w), w);
        e.load_word(w);
        assert_eq!(e.render(), w);
    }
    e.load_word("\u{0639}\u{064E}\u{0651}");
    assert_eq!(e.render(), "\u{0639}\u{0651}\u{064E}");
}

#[test]
fn selection_lists_letters_in_increasing_order() {
    let mut e = TashkeelEditor::new("كتاب", vec![], false);
    e.apply_cmd(TashkeelCmd::Select(3, SelectMode::Only));
    e.apply_cmd(TashkeelCmd::Select(1, SelectMode::Toggle));
    let s = e.selection();
    assert_eq!(s, vec![1, 3]);
    assert!(s.windows(2).all(|w| w[0] < w[1]));
}
