//! Pure key routing. No Windows types: the text service converts `(vk, lParam, keyboard state)`
//! into `Key` + `Mods` via the Latin-layout translation and then calls `classify`. The
//! test-key and key-down handlers must call it with identical inputs.
use vstd::prelude::*;
use crate::config::{chord_parts, has_part, is_mod_name};
use crate::dialect::{chars_eq_ignore_case, eq_ignore_case};
use crate::normalize::{ascii_alpha, ascii_digit, is_token_char, lower_of, spec_is_token_char, to_lower};
use crate::text::{chars_of, eq_lit, str_eq};
pub use crate::tashkeel::TashkeelCmd;

verus! {

#[derive(Clone, Copy, Debug, PartialEq, Eq, Structural)]
pub enum Key {
    /// A printable character produced by the Latin layout.
    Char(char),
    /// Numpad digit (always a literal number).
    NumpadDigit(char),
    Backspace,
    Space,
    Enter,
    Tab,
    Escape,
    Up,
    Down,
    Left,
    Right,
    Home,
    End,
    Delete,
    PageUp,
    PageDown,
    /// A modifier pressed on its own (Shift, Ctrl, Alt, Win, Caps Lock): never eaten, never
    /// commits.
    Modifier,
    /// Anything else (F-keys, media keys, …).
    Other,
}

#[derive(Clone, Copy, Debug, PartialEq, Eq, Structural)]
pub struct Mods {
    pub ctrl: bool,
    pub alt: bool,
    pub shift: bool,
    pub win: bool,
    /// Ctrl+Alt that produced a character (AltGr): treated as a plain printable key.
    pub altgr: bool,
}

impl Default for Mods {
    fn default() -> (m: Self)
        ensures
            m == (Mods { ctrl: false, alt: false, shift: false, win: false, altgr: false }),
    {
        Mods { ctrl: false, alt: false, shift: false, win: false, altgr: false }
    }
}

impl Mods {
    /// A command chord (Ctrl, Alt or Win held, not AltGr).
    pub open spec fn spec_command(&self) -> bool {
        !self.altgr && (self.ctrl || self.alt || self.win)
    }

    fn command(&self) -> (r: bool)
        ensures
            r == self.spec_command(),
    {
        !self.altgr && (self.ctrl || self.alt || self.win)
    }
}

/// Context mode of the focused field.
#[derive(Clone, Copy, Debug, PartialEq, Eq, Structural)]
pub enum ContextMode {
    Off,
    Latin,
    Arabic,
}

#[derive(Clone, Copy, Debug, PartialEq, Eq, Structural)]
pub enum Popup {
    Hidden,
    List,
    Tashkeel,
}

/// A key chord for the mode toggle (`general.mode_toggle`).
#[derive(Clone, Copy, Debug, PartialEq, Eq, Structural)]
pub enum Toggle {
    CtrlSpace,
    ShiftSpace,
    CtrlShiftSpace,
    /// Handled on key-up by the text service (not a chord).
    ShiftTap,
    /// No toggle key.
    Disabled,
}

impl Toggle {
    pub open spec fn spec_parse(s: Seq<char>) -> Toggle {
        if s == "Ctrl+Space"@ {
            Toggle::CtrlSpace
        } else if s == "Shift+Space"@ {
            Toggle::ShiftSpace
        } else if s == "Ctrl+Shift+Space"@ {
            Toggle::CtrlShiftSpace
        } else if s == "ShiftTap"@ {
            Toggle::ShiftTap
        } else if s == "none"@ {
            Toggle::Disabled
        } else {
            Toggle::CtrlSpace
        }
    }

    pub fn parse(s: &str) -> (t: Toggle)
        ensures
            t == Self::spec_parse(s@),
    {
        if str_eq(s, "Ctrl+Space") {
            Toggle::CtrlSpace
        } else if str_eq(s, "Shift+Space") {
            Toggle::ShiftSpace
        } else if str_eq(s, "Ctrl+Shift+Space") {
            Toggle::CtrlShiftSpace
        } else if str_eq(s, "ShiftTap") {
            Toggle::ShiftTap
        } else if str_eq(s, "none") {
            Toggle::Disabled
        } else {
            Toggle::CtrlSpace
        }
    }

    pub open spec fn spec_matches(self, key: Key, m: Mods) -> bool {
        key == Key::Space && !m.alt && !m.win && match self {
            Toggle::CtrlSpace => m.ctrl && !m.shift,
            Toggle::ShiftSpace => m.shift && !m.ctrl,
            Toggle::CtrlShiftSpace => m.ctrl && m.shift,
            Toggle::ShiftTap | Toggle::Disabled => false,
        }
    }

    fn matches(self, key: Key, m: Mods) -> (r: bool)
        ensures
            r == self.spec_matches(key, m),
    {
        key == Key::Space && !m.alt && !m.win && match self {
            Toggle::CtrlSpace => m.ctrl && !m.shift,
            Toggle::ShiftSpace => m.shift && !m.ctrl,
            Toggle::CtrlShiftSpace => m.ctrl && m.shift,
            Toggle::ShiftTap | Toggle::Disabled => false,
        }
    }
}

/// Shift tapped on its own toggles Arabic/Latin (`general.mode_toggle = "ShiftTap"`): Shift
/// pressed, no other key before it is released, released within `SHIFT_TAP_MS`. Holding Shift for
/// a capital, Shift+click or a long hold never toggles.
pub const SHIFT_TAP_MS: u32 = 300;

/// Track a Shift tap. `down_at`: tick of the pending Shift press (None = not armed). True when
/// this event completes a tap.
pub fn shift_tap(down_at: &mut Option<u32>, is_shift: bool, key_down: bool, now: u32) -> (r: bool)
    ensures
        is_shift && key_down ==> !r && *final(down_at) == (match *old(down_at) {
            Some(t) => Some(t),
            None => Some(now),
        }),
        is_shift && !key_down ==> *final(down_at) is None && r == (match *old(down_at) {
            Some(t) => now.wrapping_sub(t) <= SHIFT_TAP_MS,
            None => false,
        }),
        !is_shift && key_down ==> !r && *final(down_at) is None,
        !is_shift && !key_down ==> !r && *final(down_at) == *old(down_at),
{
    if is_shift && key_down {
        // Auto-repeat keeps the first press time.
        if down_at.is_none() {
            *down_at = Some(now);
        }
        false
    } else if is_shift {
        let r = match *down_at {
            Some(t) => now.wrapping_sub(t) <= SHIFT_TAP_MS,
            None => false,
        };
        *down_at = None;
        r
    } else if key_down {
        *down_at = None;
        false
    } else {
        false
    }
}

/// A configurable key chord (`[keys]`): exact modifier match.
#[derive(Clone, Copy, Debug, PartialEq, Eq, Structural)]
pub struct Chord {
    pub key: Key,
    pub ctrl: bool,
    pub alt: bool,
    pub shift: bool,
}

/// The key a chord names (already trimmed and in lower case).
pub open spec fn chord_key(k: Seq<char>) -> Option<Key> {
    if k == "space"@ {
        Some(Key::Space)
    } else if k == "enter"@ {
        Some(Key::Enter)
    } else if k == "tab"@ {
        Some(Key::Tab)
    } else if k == "esc"@ || k == "escape"@ {
        Some(Key::Escape)
    } else if k == "backspace"@ {
        Some(Key::Backspace)
    } else if k.len() == 1 && (ascii_alpha(k[0]) || ascii_digit(k[0])) {
        Some(Key::Char(k[0]))
    } else {
        None
    }
}

impl Chord {
    /// The chord `s` names: `None` for `none` or an unparsable string.
    pub open spec fn spec_parse(s: Seq<char>) -> Option<Chord> {
        if eq_ignore_case(s, "none"@) {
            None
        } else {
            let parts = chord_parts(s);
            let mods = parts.drop_last();
            match chord_key(parts.last()) {
                None => None,
                Some(key) => if forall|i: int| 0 <= i < mods.len() ==> is_mod_name(#[trigger] mods[i]) {
                    Some(
                        Chord {
                            key,
                            ctrl: has_part(mods, "ctrl"@),
                            alt: has_part(mods, "alt"@),
                            shift: has_part(mods, "shift"@),
                        },
                    )
                } else {
                    None
                },
            }
        }
    }

    /// `None` for `"none"` or an unparsable string.
    pub fn parse(s: &str) -> (r: Option<Chord>)
        ensures
            r == Self::spec_parse(s@),
    {
        let cs = chars_of(s);
        let none = chars_of("none");
        if chars_eq_ignore_case(cs.as_slice(), none.as_slice()) {
            return None;
        }
        let parts = crate::config::chord_parts_of(s);
        let ghost pv = parts@.map_values(|w: Vec<char>| w@);
        let np = parts.len();
        let k = parts[np - 1].as_slice();
        assert(pv[np - 1] == k@);
        let key = if eq_lit(k, "space") {
            Key::Space
        } else if eq_lit(k, "enter") {
            Key::Enter
        } else if eq_lit(k, "tab") {
            Key::Tab
        } else if eq_lit(k, "esc") || eq_lit(k, "escape") {
            Key::Escape
        } else if eq_lit(k, "backspace") {
            Key::Backspace
        } else if k.len() == 1 && (('A' <= k[0] && k[0] <= 'Z') || ('a' <= k[0] && k[0] <= 'z') || (
        '0' <= k[0] && k[0] <= '9')) {
            Key::Char(k[0])
        } else {
            return None;
        };
        let mut c = Chord { key, ctrl: false, alt: false, shift: false };
        proof {
            reveal_strlit("ctrl");
            reveal_strlit("alt");
            reveal_strlit("shift");
            assert("ctrl"@.len() == 4);
            assert("alt"@.len() == 3);
            assert("shift"@.len() == 5);
        }
        let mut i: usize = 0;
        while i < np - 1
            invariant
                i <= np - 1,
                np == parts@.len(),
                np >= 1,
                pv == parts@.map_values(|w: Vec<char>| w@),
                pv == chord_parts(s@),
                !eq_ignore_case(s@, "none"@),
                chord_key(pv[np - 1]) == Some(key),
                "ctrl"@ != "alt"@ && "ctrl"@ != "shift"@ && "alt"@ != "shift"@,
                c.key == key,
                forall|j: int| 0 <= j < i ==> is_mod_name(#[trigger] pv[j]),
                c.ctrl == has_part(pv.take(i as int), "ctrl"@),
                c.alt == has_part(pv.take(i as int), "alt"@),
                c.shift == has_part(pv.take(i as int), "shift"@),
            decreases np - 1 - i,
        {
            assert(pv[i as int] == parts@[i as int]@);
            assert(pv.take(i + 1) =~= pv.take(i as int).push(pv[i as int]));
            let m = parts[i].as_slice();
            if eq_lit(m, "ctrl") {
                c.ctrl = true;
            } else if eq_lit(m, "alt") {
                c.alt = true;
            } else if eq_lit(m, "shift") {
                c.shift = true;
            } else {
                proof {
                    assert(pv.drop_last()[i as int] == pv[i as int]);
                }
                return None;
            }
            proof {
                assert(pv.take(i + 1)[i as int] == pv[i as int]);
            }
            i += 1;
        }
        proof {
            assert(pv.take((np - 1) as int) =~= pv.drop_last());
            assert forall|j: int| 0 <= j < pv.drop_last().len() implies is_mod_name(
                #[trigger] pv.drop_last()[j],
            ) by {
                assert(pv.drop_last()[j] == pv[j]);
            }
        }
        Some(c)
    }

    pub open spec fn spec_matches(self, key: Key, m: Mods) -> bool {
        let key_eq = match (self.key, key) {
            (Key::Char(a), Key::Char(b)) => lower_of(a) == lower_of(b),
            (a, b) => a == b,
        };
        key_eq && self.ctrl == m.ctrl && self.alt == m.alt && self.shift == m.shift && !m.win
    }

    fn matches(self, key: Key, m: Mods) -> (r: bool)
        ensures
            r == self.spec_matches(key, m),
    {
        let key_eq = match (self.key, key) {
            (Key::Char(a), Key::Char(b)) => to_lower(a) == to_lower(b),
            (a, b) => a == b,
        };
        key_eq && self.ctrl == m.ctrl && self.alt == m.alt && self.shift == m.shift && !m.win
    }
}

/// Configurable in-composition shortcuts (`[keys]`); `None` = unbound.
#[derive(Clone, Copy, Debug, PartialEq, Eq, Structural)]
pub struct KeyMap {
    /// Commit the typed Latin as is, plus a space (default Shift+Space).
    pub commit_latin: Option<Chord>,
    /// Open the tashkeel editor on the highlighted candidate (default Tab).
    pub open_tashkeel: Option<Chord>,
    /// Commit with harakat derived from the typed vowels (default Ctrl+Enter).
    pub commit_harakat: Option<Chord>,
}

impl KeyMap {
    pub fn from_config(commit_latin: &str, open_tashkeel: &str, commit_harakat: &str) -> (k: Self)
        ensures
            k == (KeyMap {
                commit_latin: Chord::spec_parse(commit_latin@),
                open_tashkeel: Chord::spec_parse(open_tashkeel@),
                commit_harakat: Chord::spec_parse(commit_harakat@),
            }),
    {
        KeyMap {
            commit_latin: Chord::parse(commit_latin),
            open_tashkeel: Chord::parse(open_tashkeel),
            commit_harakat: Chord::parse(commit_harakat),
        }
    }
}

impl Default for KeyMap {
    fn default() -> (k: Self)
        ensures
            k == (KeyMap {
                commit_latin: Chord::spec_parse("Shift+Space"@),
                open_tashkeel: Chord::spec_parse("Tab"@),
                commit_harakat: Chord::spec_parse("Ctrl+Enter"@),
            }),
    {
        Self::from_config("Shift+Space", "Tab", "Ctrl+Enter")
    }
}

#[derive(Clone, Copy, Debug, PartialEq, Eq, Structural)]
pub struct RouterState {
    pub context: ContextMode,
    pub composing: bool,
    pub popup: Popup,
    /// A re-edit anchor exists.
    pub reedit_anchor: bool,
    /// The current buffer is an article (`el`, `al`, `il`, `l`) — a following `-` is swallowed.
    pub buffer_is_article: bool,
    pub toggle: Toggle,
    pub keys: KeyMap,
}

#[derive(Clone, Copy, Debug, PartialEq, Eq, Structural)]
pub enum Action {
    Pass,
    AppendChar(char),
    AppendLiteralDigit(char),
    InsertLatin(char),
    InsertPunctuation(char),
    Backspace,
    ReEdit,
    ArticleHyphen,
    CommitSpace,
    CommitNoSpace,
    CommitWithHarakat,
    CommitRaw,
    /// Commit the typed Latin as is, plus a space (keys.commit_latin).
    CommitRawSpace,
    CommitThenPunctuation(char),
    /// Diacritics editor open and a letter/digit that is not an editor command was typed: insert
    /// the edited word and start a new word with that character (it is never silently dropped).
    CommitThenType(char),
    CommitAndReinject,
    OpenTashkeel,
    NextCandidate,
    PrevCandidate,
    NextPage,
    PrevPage,
    ToggleMode,
    CommitThenToggle,
    Tashkeel(TashkeelCmd),
}

#[derive(Clone, Copy, Debug, PartialEq, Eq, Structural)]
pub struct Decision {
    pub eat: bool,
    pub action: Action,
}

pub open spec fn eaten(action: Action) -> Decision {
    Decision { eat: true, action }
}

pub open spec fn pass() -> Decision {
    Decision { eat: false, action: Action::Pass }
}

fn eat(action: Action) -> (d: Decision)
    ensures
        d == eaten(action),
{
    Decision { eat: true, action }
}

/// Chord `c` is bound and pressed.
pub open spec fn bound(c: Option<Chord>, key: Key, m: Mods) -> bool {
    c matches Some(ch) && ch.spec_matches(key, m)
}

fn is_bound(c: Option<Chord>, key: Key, m: Mods) -> (r: bool)
    ensures
        r == bound(c, key, m),
{
    match c {
        Some(ch) => ch.matches(key, m),
        None => false,
    }
}

/// What a typed character does in the tashkeel editor.
pub open spec fn editor_char(c: char) -> Action {
    if c == 'a' {
        Action::Tashkeel(TashkeelCmd::Fatha)
    } else if c == 'u' {
        Action::Tashkeel(TashkeelCmd::Damma)
    } else if c == 'i' {
        Action::Tashkeel(TashkeelCmd::Kasra)
    } else if c == 'o' {
        Action::Tashkeel(TashkeelCmd::Sukun)
    } else if c == 'w' {
        Action::Tashkeel(TashkeelCmd::ShaddaToggle)
    } else if c == 'A' {
        Action::Tashkeel(TashkeelCmd::Fathatan)
    } else if c == 'U' {
        Action::Tashkeel(TashkeelCmd::Dammatan)
    } else if c == 'I' {
        Action::Tashkeel(TashkeelCmd::Kasratan)
    } else if c == '^' {
        Action::Tashkeel(TashkeelCmd::DaggerAlif)
    } else if c == 'x' || c == 'X' {
        Action::Tashkeel(TashkeelCmd::Clear)
    } else if '1' <= c <= '8' {
        Action::Tashkeel(TashkeelCmd::QuickPick(((c as u32) - 48) as u8))
    } else if spec_is_token_char(c) {
        Action::CommitThenType(c)
    } else {
        Action::CommitThenPunctuation(c)
    }
}

/// What a key does while the tashkeel editor is open.
pub open spec fn editor_key(s: RouterState, key: Key, m: Mods) -> Action {
    if bound(s.keys.commit_latin, key, m) {
        Action::CommitRawSpace
    } else if bound(s.keys.open_tashkeel, key, m) {
        // The key that opened the editor closes it again: back to the list.
        Action::Tashkeel(TashkeelCmd::Back)
    } else if m.spec_command() && key != Key::Enter {
        Action::CommitAndReinject
    } else {
        match key {
            Key::Char(c) => editor_char(c),
            Key::NumpadDigit(_) => Action::Tashkeel(TashkeelCmd::Ignore),
            Key::Backspace => Action::Tashkeel(TashkeelCmd::ClearOrBack),
            Key::Delete => Action::Tashkeel(TashkeelCmd::Clear),
            // visual left = logical next (RTL); Shift extends the selection
            Key::Left => if m.shift {
                Action::Tashkeel(TashkeelCmd::ExtendNext)
            } else {
                Action::Tashkeel(TashkeelCmd::LetterNext)
            },
            Key::Right => if m.shift {
                Action::Tashkeel(TashkeelCmd::ExtendPrev)
            } else {
                Action::Tashkeel(TashkeelCmd::LetterPrev)
            },
            Key::Home => Action::Tashkeel(TashkeelCmd::LetterFirst),
            Key::End => Action::Tashkeel(TashkeelCmd::LetterLast),
            Key::Up => Action::Tashkeel(TashkeelCmd::PickUp),
            Key::Down => Action::Tashkeel(TashkeelCmd::PickDown),
            Key::Tab => if m.shift {
                Action::Tashkeel(TashkeelCmd::PickUp)
            } else {
                Action::Tashkeel(TashkeelCmd::PickDown)
            },
            Key::Enter => Action::CommitNoSpace,
            Key::Space => Action::CommitSpace,
            Key::Escape => Action::Tashkeel(TashkeelCmd::Back),
            Key::PageUp | Key::PageDown => Action::Tashkeel(TashkeelCmd::Ignore),
            Key::Other | Key::Modifier => Action::CommitAndReinject,
        }
    }
}

/// What a key does while a word is being typed (candidate list shown).
pub open spec fn composing_key(s: RouterState, key: Key, m: Mods) -> Action {
    if bound(s.keys.commit_harakat, key, m) {
        Action::CommitWithHarakat
    } else if bound(s.keys.commit_latin, key, m) {
        Action::CommitRawSpace
    } else if bound(s.keys.open_tashkeel, key, m) {
        Action::OpenTashkeel
    } else if m.spec_command() {
        Action::CommitAndReinject
    } else {
        match key {
            Key::Char(c) => if c == '-' && s.buffer_is_article {
                Action::ArticleHyphen
            } else if spec_is_token_char(c) {
                Action::AppendChar(c)
            } else {
                Action::CommitThenPunctuation(c)
            },
            Key::NumpadDigit(d) => Action::AppendLiteralDigit(d),
            Key::Backspace => Action::Backspace,
            Key::Space => Action::CommitSpace,
            Key::Enter => Action::CommitNoSpace,
            // Tab rebound elsewhere: behaves like any other key
            Key::Tab => if m.shift {
                Action::PrevCandidate
            } else {
                Action::CommitAndReinject
            },
            Key::Down => Action::NextCandidate,
            Key::Up => Action::PrevCandidate,
            Key::PageDown => Action::NextPage,
            Key::PageUp => Action::PrevPage,
            Key::Escape => Action::CommitRaw,
            _ => Action::CommitAndReinject,
        }
    }
}

/// The routing table: what the text service does with a key in a given state.
pub open spec fn spec_classify(s: RouterState, key: Key, m: Mods) -> Decision {
    if s.context == ContextMode::Off || key == Key::Modifier {
        pass()
    } else if s.toggle.spec_matches(key, m) {
        eaten(
            if s.composing {
                Action::CommitThenToggle
            } else {
                Action::ToggleMode
            },
        )
    } else if s.context == ContextMode::Latin {
        match key {
            Key::Char(c) => if !m.spec_command() {
                eaten(Action::InsertLatin(c))
            } else {
                pass()
            },
            Key::NumpadDigit(d) => if !m.spec_command() {
                eaten(Action::InsertLatin(d))
            } else {
                pass()
            },
            _ => pass(),
        }
    } else if s.composing && s.popup == Popup::Tashkeel {
        eaten(editor_key(s, key, m))
    } else if s.composing {
        eaten(composing_key(s, key, m))
    } else {
        // Idle
        match key {
            Key::Char(c) => if !m.spec_command() && spec_is_token_char(c) {
                eaten(Action::AppendChar(c))
            } else if !m.spec_command() {
                eaten(Action::InsertPunctuation(c))
            } else {
                pass()
            },
            Key::NumpadDigit(d) => if !m.spec_command() {
                eaten(Action::AppendLiteralDigit(d))
            } else {
                pass()
            },
            Key::Backspace => if s.reedit_anchor && !m.spec_command() {
                eaten(Action::ReEdit)
            } else {
                pass()
            },
            _ => pass(),
        }
    }
}

fn editor_char_action(c: char) -> (a: Action)
    ensures
        a == editor_char(c),
{
    match c {
        'a' => Action::Tashkeel(TashkeelCmd::Fatha),
        'u' => Action::Tashkeel(TashkeelCmd::Damma),
        'i' => Action::Tashkeel(TashkeelCmd::Kasra),
        'o' => Action::Tashkeel(TashkeelCmd::Sukun),
        'w' => Action::Tashkeel(TashkeelCmd::ShaddaToggle),
        'A' => Action::Tashkeel(TashkeelCmd::Fathatan),
        'U' => Action::Tashkeel(TashkeelCmd::Dammatan),
        'I' => Action::Tashkeel(TashkeelCmd::Kasratan),
        '^' => Action::Tashkeel(TashkeelCmd::DaggerAlif),
        'x' | 'X' => Action::Tashkeel(TashkeelCmd::Clear),
        '1'..='8' => Action::Tashkeel(TashkeelCmd::QuickPick(((c as u32) - 48) as u8)),
        c => if is_token_char(c) {
            Action::CommitThenType(c)
        } else {
            Action::CommitThenPunctuation(c)
        },
    }
}

fn editor_action(s: &RouterState, key: Key, m: Mods) -> (a: Action)
    ensures
        a == editor_key(*s, key, m),
{
    if is_bound(s.keys.commit_latin, key, m) {
        Action::CommitRawSpace
    } else if is_bound(s.keys.open_tashkeel, key, m) {
        Action::Tashkeel(TashkeelCmd::Back)
    } else if m.command() && key != Key::Enter {
        Action::CommitAndReinject
    } else {
        match key {
            Key::Char(c) => editor_char_action(c),
            Key::NumpadDigit(_) => Action::Tashkeel(TashkeelCmd::Ignore),
            Key::Backspace => Action::Tashkeel(TashkeelCmd::ClearOrBack),
            Key::Delete => Action::Tashkeel(TashkeelCmd::Clear),
            Key::Left => if m.shift {
                Action::Tashkeel(TashkeelCmd::ExtendNext)
            } else {
                Action::Tashkeel(TashkeelCmd::LetterNext)
            },
            Key::Right => if m.shift {
                Action::Tashkeel(TashkeelCmd::ExtendPrev)
            } else {
                Action::Tashkeel(TashkeelCmd::LetterPrev)
            },
            Key::Home => Action::Tashkeel(TashkeelCmd::LetterFirst),
            Key::End => Action::Tashkeel(TashkeelCmd::LetterLast),
            Key::Up => Action::Tashkeel(TashkeelCmd::PickUp),
            Key::Down => Action::Tashkeel(TashkeelCmd::PickDown),
            Key::Tab => if m.shift {
                Action::Tashkeel(TashkeelCmd::PickUp)
            } else {
                Action::Tashkeel(TashkeelCmd::PickDown)
            },
            Key::Enter => Action::CommitNoSpace,
            Key::Space => Action::CommitSpace,
            Key::Escape => Action::Tashkeel(TashkeelCmd::Back),
            Key::PageUp | Key::PageDown => Action::Tashkeel(TashkeelCmd::Ignore),
            Key::Other | Key::Modifier => Action::CommitAndReinject,
        }
    }
}

fn composing_action(s: &RouterState, key: Key, m: Mods) -> (a: Action)
    ensures
        a == composing_key(*s, key, m),
{
    if is_bound(s.keys.commit_harakat, key, m) {
        Action::CommitWithHarakat
    } else if is_bound(s.keys.commit_latin, key, m) {
        Action::CommitRawSpace
    } else if is_bound(s.keys.open_tashkeel, key, m) {
        Action::OpenTashkeel
    } else if m.command() {
        Action::CommitAndReinject
    } else {
        match key {
            Key::Char(c) => if c == '-' && s.buffer_is_article {
                Action::ArticleHyphen
            } else if is_token_char(c) {
                Action::AppendChar(c)
            } else {
                Action::CommitThenPunctuation(c)
            },
            Key::NumpadDigit(d) => Action::AppendLiteralDigit(d),
            Key::Backspace => Action::Backspace,
            Key::Space => Action::CommitSpace,
            Key::Enter => Action::CommitNoSpace,
            Key::Tab => if m.shift {
                Action::PrevCandidate
            } else {
                Action::CommitAndReinject
            },
            Key::Down => Action::NextCandidate,
            Key::Up => Action::PrevCandidate,
            Key::PageDown => Action::NextPage,
            Key::PageUp => Action::PrevPage,
            Key::Escape => Action::CommitRaw,
            _ => Action::CommitAndReinject,
        }
    }
}

/// The routing table: what the text service does with a key in a given state.
pub fn classify(s: &RouterState, key: Key, m: Mods) -> (d: Decision)
    ensures
        d == spec_classify(*s, key, m),
{
    let pass = Decision { eat: false, action: Action::Pass };
    if s.context == ContextMode::Off || key == Key::Modifier {
        return pass;
    }
    if s.toggle.matches(key, m) {
        return eat(
            if s.composing {
                Action::CommitThenToggle
            } else {
                Action::ToggleMode
            },
        );
    }
    if s.context == ContextMode::Latin {
        return match key {
            Key::Char(c) => if !m.command() {
                eat(Action::InsertLatin(c))
            } else {
                pass
            },
            Key::NumpadDigit(d) => if !m.command() {
                eat(Action::InsertLatin(d))
            } else {
                pass
            },
            _ => pass,
        };
    }
    // Arabic mode
    if s.composing && s.popup == Popup::Tashkeel {
        return eat(editor_action(s, key, m));
    }
    if s.composing {
        return eat(composing_action(s, key, m));
    }
    // Idle
    match key {
        Key::Char(c) => if !m.command() && is_token_char(c) {
            eat(Action::AppendChar(c))
        } else if !m.command() {
            eat(Action::InsertPunctuation(c))
        } else {
            pass
        },
        Key::NumpadDigit(d) => if !m.command() {
            eat(Action::AppendLiteralDigit(d))
        } else {
            pass
        },
        Key::Backspace => if s.reedit_anchor && !m.command() {
            eat(Action::ReEdit)
        } else {
            pass
        },
        _ => pass,
    }
}

/// What a text field's input scopes allow. Values are the Windows `InputScope` numbers, so this
/// stays portable and testable.
#[derive(Clone, Copy, Debug, PartialEq, Eq, Structural)]
pub enum ScopeClass {
    /// Normal text: Arabic or Latin per the mode toggle, learning allowed.
    Normal,
    /// Passwords, PINs, numbers, phone numbers, dates, times, amounts; URL and e-mail fields when
    /// `typing.latin_in_url_email` is on: Latin characters only, no transliteration, no learning.
    Latin,
    /// `IS_PRIVATE` (InPrivate/incognito): Arabic as usual, but nothing is learned.
    NoLearning,
}

/// Password, PIN, number, telephone, currency, date and time scopes.
pub open spec fn latin_scope(x: i32) -> bool {
    x == 31 || x == 63 || x == 64 || x == 65 || x == 66 || x == 28 || x == 29 || x == 39 || x == 32
        || x == 33 || x == 34 || x == 35 || x == 20 || x == 21 || (22 <= x <= 27) || (36 <= x
        <= 38)
}

/// URL, e-mail and login-name scopes.
pub open spec fn url_email_scope(x: i32) -> bool {
    x == 1 || x == 4 || x == 5 || x == 6 || x == 60
}

/// `IS_PRIVATE`.
pub const IS_PRIVATE: i32 = 61;

pub open spec fn spec_classify_scopes(scopes: Seq<i32>, latin_in_url_email: bool) -> ScopeClass {
    if (exists|i: int| 0 <= i < scopes.len() && latin_scope(#[trigger] scopes[i])) || (
    latin_in_url_email && exists|i: int| 0 <= i < scopes.len() && url_email_scope(#[trigger] scopes[i])) {
        ScopeClass::Latin
    } else if exists|i: int| 0 <= i < scopes.len() && #[trigger] scopes[i] == IS_PRIVATE {
        ScopeClass::NoLearning
    } else {
        ScopeClass::Normal
    }
}

fn is_latin_scope(x: i32) -> (r: bool)
    ensures
        r == latin_scope(x),
{
    x == 31 || x == 63 || x == 64 || x == 65 || x == 66 || x == 28 || x == 29 || x == 39 || x == 32
        || x == 33 || x == 34 || x == 35 || x == 20 || x == 21 || (22 <= x && x <= 27) || (36 <= x
        && x <= 38)
}

/// Which of the rules of passwords, numbers, URLs and private fields apply to a field with
/// these input scopes.
pub fn classify_scopes(scopes: &[i32], latin_in_url_email: bool) -> (r: ScopeClass)
    ensures
        r == spec_classify_scopes(scopes@, latin_in_url_email),
{
    let mut latin = false;
    let mut url = false;
    let mut private = false;
    let mut i: usize = 0;
    while i < scopes.len()
        invariant
            i <= scopes@.len(),
            latin == exists|j: int| 0 <= j < i && latin_scope(#[trigger] scopes@[j]),
            url == exists|j: int| 0 <= j < i && url_email_scope(#[trigger] scopes@[j]),
            private == exists|j: int| 0 <= j < i && #[trigger] scopes@[j] == IS_PRIVATE,
        decreases scopes@.len() - i,
    {
        let x = scopes[i];
        if is_latin_scope(x) {
            latin = true;
        }
        if x == 1 || x == 4 || x == 5 || x == 6 || x == 60 {
            url = true;
        }
        if x == IS_PRIVATE {
            private = true;
        }
        i += 1;
    }
    if latin || (latin_in_url_email && url) {
        ScopeClass::Latin
    } else if private {
        ScopeClass::NoLearning
    } else {
        ScopeClass::Normal
    }
}

/// The mode of the focused field: off without a field, for a read-only document, when the
/// keyboard is disabled for it (password boxes) or for an empty placeholder context; else the
/// user's mode.
pub open spec fn spec_context_mode(
    present: bool,
    read_only: bool,
    keyboard_disabled: bool,
    empty_context: bool,
    arabic_mode: bool,
) -> ContextMode {
    if !present || read_only || keyboard_disabled || empty_context {
        ContextMode::Off
    } else if arabic_mode {
        ContextMode::Arabic
    } else {
        ContextMode::Latin
    }
}

pub fn context_mode(
    present: bool,
    read_only: bool,
    keyboard_disabled: bool,
    empty_context: bool,
    arabic_mode: bool,
) -> (r: ContextMode)
    ensures
        r == spec_context_mode(present, read_only, keyboard_disabled, empty_context, arabic_mode),
{
    if !present || read_only || keyboard_disabled || empty_context {
        ContextMode::Off
    } else if arabic_mode {
        ContextMode::Arabic
    } else {
        ContextMode::Latin
    }
}

/// The buffer (lower-cased) is an article: `el`, `al`, `il` or `l`.
pub open spec fn is_article(raw: Seq<char>) -> bool {
    raw == "el"@ || raw == "al"@ || raw == "il"@ || raw == "l"@
}

/// The router's view of the text service: the popup shows the tashkeel editor when it is open,
/// else the list while composing; the re-edit anchor counts only when re-editing is on; the
/// article rule only when article joining is on.
pub open spec fn spec_router_state(
    context: ContextMode,
    buffer_empty: bool,
    tashkeel_open: bool,
    has_anchor: bool,
    reedit_backspace: bool,
    article_joining: bool,
    raw_lower: Seq<char>,
    toggle: Toggle,
    keys: KeyMap,
) -> RouterState {
    let composing = !buffer_empty || tashkeel_open;
    RouterState {
        context,
        composing,
        popup: if tashkeel_open {
            Popup::Tashkeel
        } else if composing {
            Popup::List
        } else {
            Popup::Hidden
        },
        reedit_anchor: has_anchor && reedit_backspace,
        buffer_is_article: article_joining && is_article(raw_lower),
        toggle,
        keys,
    }
}

pub fn router_state(
    context: ContextMode,
    buffer_empty: bool,
    tashkeel_open: bool,
    has_anchor: bool,
    reedit_backspace: bool,
    article_joining: bool,
    raw_lower: &str,
    toggle: Toggle,
    keys: KeyMap,
) -> (r: RouterState)
    ensures
        r == spec_router_state(
            context,
            buffer_empty,
            tashkeel_open,
            has_anchor,
            reedit_backspace,
            article_joining,
            raw_lower@,
            toggle,
            keys,
        ),
{
    let composing = !buffer_empty || tashkeel_open;
    let popup = if tashkeel_open {
        Popup::Tashkeel
    } else if composing {
        Popup::List
    } else {
        Popup::Hidden
    };
    let article = article_joining && (crate::text::str_eq(raw_lower, "el") || crate::text::str_eq(
        raw_lower,
        "al",
    ) || crate::text::str_eq(raw_lower, "il") || crate::text::str_eq(raw_lower, "l"));
    RouterState {
        context,
        composing,
        popup,
        reedit_anchor: has_anchor && reedit_backspace,
        buffer_is_article: article,
        toggle,
        keys,
    }
}

// ---------------------------------------------------------------------------------------------
// Laws.

/// A field that is off (none, read-only, password, placeholder) gets every key as typed.
pub proof fn law_off_context_passes(s: RouterState, key: Key, m: Mods)
    requires
        s.context == ContextMode::Off,
    ensures
        spec_classify(s, key, m) == pass(),
{
}

/// A modifier key on its own never commits and is never eaten, in any state.
pub proof fn law_lone_modifier_passes(s: RouterState, m: Mods)
    ensures
        spec_classify(s, Key::Modifier, m) == pass(),
{
}

/// A character the diacritics editor takes as a command.
pub open spec fn editor_command_char(c: char) -> bool {
    c == 'a' || c == 'u' || c == 'i' || c == 'o' || c == 'w' || c == 'A' || c == 'U' || c == 'I'
        || c == '^' || c == 'x' || c == 'X' || ('1' <= c <= '8')
}

/// With the diacritics editor open, a letter or digit that is not an editor command is never
/// swallowed: it commits the edited word and starts a new word with that character.
pub proof fn law_editor_never_swallows_typing(s: RouterState, c: char, m: Mods)
    requires
        s.context == ContextMode::Arabic,
        s.composing,
        s.popup == Popup::Tashkeel,
        !m.spec_command(),
        !bound(s.keys.commit_latin, Key::Char(c), m),
        !bound(s.keys.open_tashkeel, Key::Char(c), m),
        spec_is_token_char(c),
        !editor_command_char(c),
    ensures
        spec_classify(s, Key::Char(c), m) == eaten(Action::CommitThenType(c)),
{
}

/// A private password field is still a password field: Latin wins over no-learning.
pub proof fn law_latin_scope_wins(scopes: Seq<i32>, flag: bool, i: int)
    requires
        0 <= i < scopes.len(),
        latin_scope(scopes[i]),
    ensures
        spec_classify_scopes(scopes, flag) == ScopeClass::Latin,
{
}

/// In the tashkeel editor each vowel key puts its own mark on the selection: a fatha (U+064E),
/// u damma (U+064F), i kasra (U+0650), o sukun (U+0652), A fathatan (U+064B), U dammatan
/// (U+064C), I kasratan (U+064D); no two of these keys do the same. w toggles shadda, ^ the
/// dagger alif, x and X clear the selection, and a digit 1 to 8 loads that pick. A typed character reaches
/// this map whenever it is not one of the editor's bound chords and no command modifier is held.
pub proof fn law_editor_vowel_keys(m: crate::tashkeel::EditorModel, s: RouterState, c: char, mods: Mods)
    ensures
        editor_char('a') matches Action::Tashkeel(c) && crate::tashkeel::spec_apply(m, c).0
            == crate::tashkeel::vowel_applied(m, '\u{064E}'),
        editor_char('u') matches Action::Tashkeel(c) && crate::tashkeel::spec_apply(m, c).0
            == crate::tashkeel::vowel_applied(m, '\u{064F}'),
        editor_char('i') matches Action::Tashkeel(c) && crate::tashkeel::spec_apply(m, c).0
            == crate::tashkeel::vowel_applied(m, '\u{0650}'),
        editor_char('o') matches Action::Tashkeel(c) && crate::tashkeel::spec_apply(m, c).0
            == crate::tashkeel::vowel_applied(m, '\u{0652}'),
        editor_char('A') matches Action::Tashkeel(c) && crate::tashkeel::spec_apply(m, c).0
            == crate::tashkeel::vowel_applied(m, '\u{064B}'),
        editor_char('U') matches Action::Tashkeel(c) && crate::tashkeel::spec_apply(m, c).0
            == crate::tashkeel::vowel_applied(m, '\u{064C}'),
        editor_char('I') matches Action::Tashkeel(c) && crate::tashkeel::spec_apply(m, c).0
            == crate::tashkeel::vowel_applied(m, '\u{064D}'),
        editor_char('a') != editor_char('u') && editor_char('a') != editor_char('i') && editor_char('a') != editor_char('o') && editor_char('a') != editor_char('A') && editor_char('a') != editor_char('U') && editor_char('a') != editor_char('I') && editor_char('u') != editor_char('i') && editor_char('u') != editor_char('o') && editor_char('u') != editor_char('A') && editor_char('u') != editor_char('U') && editor_char('u') != editor_char('I') && editor_char('i') != editor_char('o') && editor_char('i') != editor_char('A') && editor_char('i') != editor_char('U') && editor_char('i') != editor_char('I') && editor_char('o') != editor_char('A') && editor_char('o') != editor_char('U') && editor_char('o') != editor_char('I') && editor_char('A') != editor_char('U') && editor_char('A') != editor_char('I') && editor_char('U') != editor_char('I'),
        editor_char('w') matches Action::Tashkeel(c) && crate::tashkeel::spec_apply(m, c).0
            == crate::tashkeel::shadda_toggled(m),
        editor_char('^') matches Action::Tashkeel(c) && crate::tashkeel::spec_apply(m, c).0
            == crate::tashkeel::dagger_toggled(m),
        editor_char('x') matches Action::Tashkeel(c) && crate::tashkeel::spec_apply(m, c).0
            == crate::tashkeel::cleared_where(m, false),
        editor_char('X') matches Action::Tashkeel(c) && crate::tashkeel::spec_apply(m, c).0
            == crate::tashkeel::cleared_where(m, false),
        '1' <= c <= '8' ==> (editor_char(c) matches Action::Tashkeel(k) && crate::tashkeel::spec_apply(m, k).0
            == crate::tashkeel::quick_picked(m, c as int - '0' as int)),
        !bound(s.keys.commit_latin, Key::Char(c), mods) && !bound(s.keys.open_tashkeel, Key::Char(c), mods)
            && !mods.spec_command() ==> editor_key(s, Key::Char(c), mods) == editor_char(c),
{
}

} // verus!
