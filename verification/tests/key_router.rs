use type3arabi::keyrouter::{
    classify, classify_scopes, context_mode, router_state, shift_tap, Action, Chord, ContextMode,
    Decision, Key, KeyMap, Mods, Popup, RouterState, ScopeClass, Toggle, SHIFT_TAP_MS,
};
use type3arabi::tashkeel::TashkeelCmd;

fn st(context: ContextMode, composing: bool, popup: Popup) -> RouterState {
    RouterState {
        context,
        composing,
        popup,
        reedit_anchor: false,
        buffer_is_article: false,
        toggle: Toggle::CtrlSpace,
        keys: KeyMap::default(),
    }
}

const NONE: Mods = Mods {
    ctrl: false,
    alt: false,
    shift: false,
    win: false,
    altgr: false,
};
const CTRL: Mods = Mods {
    ctrl: true,
    alt: false,
    shift: false,
    win: false,
    altgr: false,
};
const SHIFT: Mods = Mods {
    ctrl: false,
    alt: false,
    shift: true,
    win: false,
    altgr: false,
};

fn eat(action: Action) -> Decision {
    Decision { eat: true, action }
}

const PASS: Decision = Decision {
    eat: false,
    action: Action::Pass,
};

#[test]
fn idle_row_of_docs_table() {
    let s = st(ContextMode::Arabic, false, Popup::Hidden);
    assert_eq!(classify(&s, Key::Char('7'), NONE), eat(Action::AppendChar('7')));
    assert_eq!(classify(&s, Key::Char('\''), NONE), eat(Action::AppendChar('\'')));
    assert_eq!(
        classify(&s, Key::NumpadDigit('3'), NONE),
        eat(Action::AppendLiteralDigit('3'))
    );
    assert_eq!(
        classify(&s, Key::Char('?'), NONE),
        eat(Action::InsertPunctuation('?'))
    );
    assert_eq!(classify(&s, Key::Space, NONE), PASS);
    assert_eq!(classify(&s, Key::Enter, NONE), PASS);
    assert_eq!(classify(&s, Key::Backspace, NONE), PASS);
    assert_eq!(classify(&s, Key::Char('c'), CTRL), PASS);
    let s2 = RouterState {
        reedit_anchor: true,
        ..s
    };
    assert_eq!(classify(&s2, Key::Backspace, NONE), eat(Action::ReEdit));
}

#[test]
fn composing_rows() {
    let s = st(ContextMode::Arabic, true, Popup::List);
    assert_eq!(classify(&s, Key::Space, NONE), eat(Action::CommitSpace));
    assert_eq!(classify(&s, Key::Enter, NONE), eat(Action::CommitNoSpace));
    assert_eq!(classify(&s, Key::Enter, CTRL), eat(Action::CommitWithHarakat));
    assert_eq!(classify(&s, Key::Tab, NONE), eat(Action::OpenTashkeel));
    assert_eq!(classify(&s, Key::Tab, SHIFT), eat(Action::PrevCandidate));
    assert_eq!(classify(&s, Key::Escape, NONE), eat(Action::CommitRaw));
    assert_eq!(classify(&s, Key::Left, NONE), eat(Action::CommitAndReinject));
    assert_eq!(classify(&s, Key::Char('s'), CTRL), eat(Action::CommitAndReinject));
    assert_eq!(
        classify(&s, Key::Char(','), NONE),
        eat(Action::CommitThenPunctuation(','))
    );
    assert_eq!(classify(&s, Key::Space, CTRL), eat(Action::CommitThenToggle));
    let art = RouterState {
        buffer_is_article: true,
        ..s
    };
    assert_eq!(classify(&art, Key::Char('-'), NONE), eat(Action::ArticleHyphen));
}

#[test]
fn tashkeel_rows() {
    let s = st(ContextMode::Arabic, true, Popup::Tashkeel);
    assert_eq!(
        classify(&s, Key::Char('w'), NONE),
        eat(Action::Tashkeel(TashkeelCmd::ShaddaToggle))
    );
    assert_eq!(
        classify(&s, Key::Char('A'), SHIFT),
        eat(Action::Tashkeel(TashkeelCmd::Fathatan))
    );
    assert_eq!(
        classify(&s, Key::Char('3'), NONE),
        eat(Action::Tashkeel(TashkeelCmd::QuickPick(3)))
    );
    assert_eq!(
        classify(&s, Key::Left, NONE),
        eat(Action::Tashkeel(TashkeelCmd::LetterNext))
    );
    assert_eq!(
        classify(&s, Key::Escape, NONE),
        eat(Action::Tashkeel(TashkeelCmd::Back))
    );
    assert_eq!(classify(&s, Key::Enter, NONE), eat(Action::CommitNoSpace));
}

#[test]
fn latin_mode_and_off() {
    let s = st(ContextMode::Latin, false, Popup::Hidden);
    assert_eq!(classify(&s, Key::Char('a'), NONE), eat(Action::InsertLatin('a')));
    assert_eq!(
        classify(
            &s,
            Key::Char('€'),
            Mods {
                altgr: true,
                ctrl: true,
                alt: true,
                ..NONE
            }
        ),
        eat(Action::InsertLatin('€'))
    );
    assert_eq!(classify(&s, Key::Space, CTRL), eat(Action::ToggleMode));
    assert_eq!(classify(&s, Key::Enter, NONE), PASS);
    let off = st(ContextMode::Off, false, Popup::Hidden);
    assert_eq!(classify(&off, Key::Char('a'), NONE), PASS);
    assert_eq!(classify(&off, Key::Space, CTRL), PASS);
}

#[test]
fn open_key_closes_the_tashkeel_editor() {
    let s = st(ContextMode::Arabic, true, Popup::Tashkeel);
    let back = eat(Action::Tashkeel(TashkeelCmd::Back));
    assert_eq!(classify(&s, Key::Tab, NONE), back);
    assert_eq!(
        classify(&s, Key::Tab, SHIFT),
        eat(Action::Tashkeel(TashkeelCmd::PickUp))
    );
    assert_eq!(
        classify(&s, Key::Down, NONE),
        eat(Action::Tashkeel(TashkeelCmd::PickDown))
    );
    let custom = RouterState {
        keys: KeyMap::from_config("Shift+Space", "Ctrl+T", "Ctrl+Enter"),
        ..s
    };
    let ctrl_t = Mods { ctrl: true, ..NONE };
    assert_eq!(classify(&custom, Key::Char('t'), ctrl_t), back);
    assert_eq!(
        classify(&custom, Key::Tab, NONE),
        eat(Action::Tashkeel(TashkeelCmd::PickDown))
    );
}

#[test]
fn shift_space_commits_latin() {
    let s = st(ContextMode::Arabic, true, Popup::List);
    assert_eq!(classify(&s, Key::Space, SHIFT), eat(Action::CommitRawSpace));
    let t = st(ContextMode::Arabic, true, Popup::Tashkeel);
    assert_eq!(classify(&t, Key::Space, SHIFT), eat(Action::CommitRawSpace));
    let idle = st(ContextMode::Arabic, false, Popup::Hidden);
    assert_eq!(classify(&idle, Key::Space, SHIFT), PASS);
}

#[test]
fn shortcuts_follow_the_key_map() {
    let s = RouterState {
        keys: KeyMap::from_config("Ctrl+L", "Ctrl+T", "none"),
        ..st(ContextMode::Arabic, true, Popup::List)
    };
    let ctrl_l = Mods { ctrl: true, ..NONE };
    assert_eq!(classify(&s, Key::Char('l'), ctrl_l), eat(Action::CommitRawSpace));
    assert_eq!(classify(&s, Key::Char('t'), ctrl_l), eat(Action::OpenTashkeel));
    assert_eq!(classify(&s, Key::Enter, CTRL), eat(Action::CommitAndReinject));
    assert_eq!(classify(&s, Key::Tab, NONE), eat(Action::CommitAndReinject));
    assert_eq!(classify(&s, Key::Space, SHIFT), eat(Action::CommitSpace));
    assert_eq!(Chord::parse("Hyper+Q"), None);
}

#[test]
fn shift_arrows_extend_tashkeel_selection() {
    let s = st(ContextMode::Arabic, true, Popup::Tashkeel);
    assert_eq!(
        classify(&s, Key::Left, SHIFT),
        eat(Action::Tashkeel(TashkeelCmd::ExtendNext))
    );
    assert_eq!(
        classify(&s, Key::Right, SHIFT),
        eat(Action::Tashkeel(TashkeelCmd::ExtendPrev))
    );
}

#[test]
fn lone_modifiers_never_commit() {
    for s in [
        st(ContextMode::Arabic, true, Popup::List),
        st(ContextMode::Arabic, true, Popup::Tashkeel),
        st(ContextMode::Arabic, false, Popup::Hidden),
        st(ContextMode::Latin, false, Popup::Hidden),
    ] {
        assert_eq!(classify(&s, Key::Modifier, SHIFT), PASS);
        assert_eq!(classify(&s, Key::Modifier, CTRL), PASS);
    }
}

#[test]
fn decisions_are_pure() {
    let s = st(ContextMode::Arabic, true, Popup::List);
    for k in [Key::Char('a'), Key::Space, Key::Tab, Key::Escape, Key::Other] {
        assert_eq!(classify(&s, k, NONE), classify(&s, k, NONE));
    }
}

#[test]
fn input_scopes_gate_transliteration_and_learning() {
    assert_eq!(classify_scopes(&[], true), ScopeClass::Normal);
    assert_eq!(classify_scopes(&[0], true), ScopeClass::Normal);
    assert_eq!(classify_scopes(&[31], false), ScopeClass::Latin);
    assert_eq!(classify_scopes(&[64], false), ScopeClass::Latin);
    assert_eq!(classify_scopes(&[29], false), ScopeClass::Latin);
    assert_eq!(classify_scopes(&[32], false), ScopeClass::Latin);
    assert_eq!(classify_scopes(&[22], false), ScopeClass::Latin);
    assert_eq!(classify_scopes(&[1], true), ScopeClass::Latin);
    assert_eq!(classify_scopes(&[1], false), ScopeClass::Normal);
    assert_eq!(classify_scopes(&[5], true), ScopeClass::Latin);
    assert_eq!(classify_scopes(&[61], true), ScopeClass::NoLearning);
    assert_eq!(classify_scopes(&[61, 31], true), ScopeClass::Latin);
    assert_eq!(classify_scopes(&[57, 58], true), ScopeClass::Normal);
}

#[test]
fn editor_never_swallows_typing() {
    let s = st(ContextMode::Arabic, true, Popup::Tashkeel);
    for c in ['b', 's', 't', 'k', '9', '0'] {
        assert_eq!(classify(&s, Key::Char(c), NONE), eat(Action::CommitThenType(c)));
    }
    assert_eq!(
        classify(&s, Key::Char('a'), NONE),
        eat(Action::Tashkeel(TashkeelCmd::Fatha))
    );
    assert_eq!(
        classify(&s, Key::Char('3'), NONE),
        eat(Action::Tashkeel(TashkeelCmd::QuickPick(3)))
    );
    assert_eq!(classify(&s, Key::Char('c'), CTRL), eat(Action::CommitAndReinject));
}

#[test]
fn shift_tap_toggles_only_for_a_short_lone_tap() {
    let mut armed = None;
    assert!(!shift_tap(&mut armed, true, true, 1000));
    assert!(shift_tap(&mut armed, true, false, 1200));
    assert!(!shift_tap(&mut armed, true, true, 2000));
    assert!(!shift_tap(&mut armed, false, true, 2050));
    assert!(!shift_tap(&mut armed, true, false, 2100));
    assert!(!shift_tap(&mut armed, true, true, 3000));
    assert!(!shift_tap(&mut armed, true, false, 3000 + SHIFT_TAP_MS + 1));
    assert!(!shift_tap(&mut armed, true, false, 4000));
}

#[test]
fn toggle_names_parse() {
    assert_eq!(Toggle::parse("Ctrl+Space"), Toggle::CtrlSpace);
    assert_eq!(Toggle::parse("none"), Toggle::Disabled);
}

#[test]
fn context_mode_gates_fields() {
    assert_eq!(context_mode(false, false, false, false, true), ContextMode::Off);
    assert_eq!(context_mode(true, true, false, false, true), ContextMode::Off);
    assert_eq!(context_mode(true, false, true, false, true), ContextMode::Off);
    assert_eq!(context_mode(true, false, false, true, true), ContextMode::Off);
    assert_eq!(context_mode(true, false, false, false, true), ContextMode::Arabic);
    assert_eq!(context_mode(true, false, false, false, false), ContextMode::Latin);
}

#[test]
fn off_field_passes_every_key() {
    let s = st(ContextMode::Off, true, Popup::List);
    for key in [Key::Char('a'), Key::Space, Key::Enter, Key::Backspace, Key::Escape] {
        assert_eq!(classify(&s, key, NONE).action, Action::Pass);
        assert!(!classify(&s, key, NONE).eat);
    }
}

#[test]
fn router_state_from_the_service() {
    let k = KeyMap::default();
    let s = router_state(ContextMode::Arabic, false, false, true, true, true, "el", Toggle::CtrlSpace, k);
    assert!(s.composing && s.popup == Popup::List && s.reedit_anchor && s.buffer_is_article);
    let s = router_state(ContextMode::Arabic, true, true, true, false, false, "el", Toggle::CtrlSpace, k);
    assert!(s.composing && s.popup == Popup::Tashkeel && !s.reedit_anchor && !s.buffer_is_article);
    let s = router_state(ContextMode::Latin, true, false, false, true, true, "ela", Toggle::ShiftTap, k);
    assert!(!s.composing && s.popup == Popup::Hidden && !s.buffer_is_article);
}
