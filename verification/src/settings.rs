//! The settings the Settings app edits: a subset of `Config`, its validation, and the reasons a
//! shortcut is refused.
use vstd::prelude::*;

use crate::config::{
    is_chord, reason_text, reserved_index, reserved_shortcut, spec_is_chord, strings_view, Config,
    ConfigView,
};
use crate::dialect::{chars_eq_ignore_case, eq_ignore_case};
use crate::hotkey;
use crate::text::{chars_of, push_str, str_eq};

verus! {

/// The settings the UI edits (keys it does not show are kept when saving).
pub struct Settings {
    pub mode_toggle: String,
    pub global_hotkey_enabled: bool,
    pub global_hotkey: String,
    pub key_commit_latin: String,
    pub key_open_tashkeel: String,
    pub key_commit_harakat: String,
    pub inline_preview: String,
    pub candidates_per_page: i64,
    pub predictive_completions: bool,
    pub article_joining: bool,
    pub reedit_backspace: bool,
    pub arabic_punctuation: bool,
    pub numerals: String,
    pub dialect_profile: String,
    pub show_dialect_badge: bool,
    pub allah_form: String,
    pub adverbial_tanween: bool,
    pub hamza: String,
    pub vowel_harakat: String,
    pub learning_enabled: bool,
    pub sticky_last_choice: bool,
    pub use_surrounding_text: bool,
}

fn copy_string(s: &String) -> (r: String)
    ensures
        r@ == s@,
{
    let cs = chars_of(s.as_str());
    crate::text::string_of(cs.as_slice())
}

impl Settings {
    /// The edited subset of `c`.
    pub fn from_config(c: &Config) -> (s: Settings)
        ensures
            s.mode_toggle@ == c.mode_toggle@,
            s.global_hotkey_enabled == c.global_hotkey_enabled,
            s.global_hotkey@ == c.global_hotkey@,
            s.key_commit_latin@ == c.key_commit_latin@,
            s.key_open_tashkeel@ == c.key_open_tashkeel@,
            s.key_commit_harakat@ == c.key_commit_harakat@,
            s.inline_preview@ == c.inline_preview@,
            s.candidates_per_page == c.candidates_per_page,
            s.predictive_completions == c.predictive_completions,
            s.article_joining == c.article_joining,
            s.reedit_backspace == c.reedit_backspace,
            s.arabic_punctuation == c.arabic_punctuation,
            s.numerals@ == c.numerals@,
            s.dialect_profile@ == c.dialect_profile@,
            s.show_dialect_badge == c.show_dialect_badge,
            s.allah_form@ == c.allah_form@,
            s.adverbial_tanween == c.adverbial_tanween,
            s.hamza@ == c.hamza@,
            s.vowel_harakat@ == c.vowel_harakat@,
            s.learning_enabled == c.learning_enabled,
            s.sticky_last_choice == c.sticky_last_choice,
            s.use_surrounding_text == c.use_surrounding_text,
    {
        Settings {
            mode_toggle: copy_string(&c.mode_toggle),
            global_hotkey_enabled: c.global_hotkey_enabled,
            global_hotkey: copy_string(&c.global_hotkey),
            key_commit_latin: copy_string(&c.key_commit_latin),
            key_open_tashkeel: copy_string(&c.key_open_tashkeel),
            key_commit_harakat: copy_string(&c.key_commit_harakat),
            inline_preview: copy_string(&c.inline_preview),
            candidates_per_page: c.candidates_per_page,
            predictive_completions: c.predictive_completions,
            article_joining: c.article_joining,
            reedit_backspace: c.reedit_backspace,
            arabic_punctuation: c.arabic_punctuation,
            numerals: copy_string(&c.numerals),
            dialect_profile: copy_string(&c.dialect_profile),
            show_dialect_badge: c.show_dialect_badge,
            allah_form: copy_string(&c.allah_form),
            adverbial_tanween: c.adverbial_tanween,
            hamza: copy_string(&c.hamza),
            vowel_harakat: copy_string(&c.vowel_harakat),
            learning_enabled: c.learning_enabled,
            sticky_last_choice: c.sticky_last_choice,
            use_surrounding_text: c.use_surrounding_text,
        }
    }
}

/// `cv` with the fields that `s` edits replaced by its values.
pub open spec fn merged(cv: ConfigView, s: Settings) -> ConfigView {
    ConfigView {
        mode_toggle: s.mode_toggle@,
        global_hotkey_enabled: s.global_hotkey_enabled,
        global_hotkey: s.global_hotkey@,
        key_commit_latin: s.key_commit_latin@,
        key_open_tashkeel: s.key_open_tashkeel@,
        key_commit_harakat: s.key_commit_harakat@,
        inline_preview: s.inline_preview@,
        candidates_per_page: s.candidates_per_page,
        predictive_completions: s.predictive_completions,
        article_joining: s.article_joining,
        reedit_backspace: s.reedit_backspace,
        arabic_punctuation: s.arabic_punctuation,
        numerals: s.numerals@,
        dialect_profile: s.dialect_profile@,
        show_dialect_badge: s.show_dialect_badge,
        allah_form: s.allah_form@,
        adverbial_tanween: s.adverbial_tanween,
        hamza: s.hamza@,
        vowel_harakat: s.vowel_harakat@,
        learning_enabled: s.learning_enabled,
        sticky_last_choice: s.sticky_last_choice,
        use_surrounding_text: s.use_surrounding_text,
        ..cv
    }
}

/// Writes the edited settings into `c`; every other key of `c` is kept.
pub fn merge_into(s: Settings, c: &mut Config)
    ensures
        final(c).view() == merged(old(c).view(), s),
{
    let ghost sv = s;
    c.mode_toggle = s.mode_toggle;
    c.global_hotkey_enabled = s.global_hotkey_enabled;
    c.global_hotkey = s.global_hotkey;
    c.key_commit_latin = s.key_commit_latin;
    c.key_open_tashkeel = s.key_open_tashkeel;
    c.key_commit_harakat = s.key_commit_harakat;
    c.inline_preview = s.inline_preview;
    c.candidates_per_page = s.candidates_per_page;
    c.predictive_completions = s.predictive_completions;
    c.article_joining = s.article_joining;
    c.reedit_backspace = s.reedit_backspace;
    c.arabic_punctuation = s.arabic_punctuation;
    c.numerals = s.numerals;
    c.dialect_profile = s.dialect_profile;
    c.show_dialect_badge = s.show_dialect_badge;
    c.allah_form = s.allah_form;
    c.adverbial_tanween = s.adverbial_tanween;
    c.hamza = s.hamza;
    c.vowel_harakat = s.vowel_harakat;
    c.learning_enabled = s.learning_enabled;
    c.sticky_last_choice = s.sticky_last_choice;
    c.use_surrounding_text = s.use_surrounding_text;
}

/// "… this shortcut is used <reason>" for a reserved chord, else nothing.
pub open spec fn reserved_errors(v: Seq<char>) -> Seq<Seq<char>> {
    match reserved_index(v) {
        Some(i) => seq![v + ": this shortcut is used "@ + reason_text(i).0],
        None => Seq::empty(),
    }
}

/// Problems with the typing shortcut `v` stored under `name`.
pub open spec fn chord_errors(name: Seq<char>, v: Seq<char>) -> Seq<Seq<char>> {
    if !spec_is_chord(v) {
        seq![name + ": not a valid shortcut"@]
    } else {
        reserved_errors(v)
    }
}

/// The mode toggles the UI lists.
pub open spec fn is_listed_toggle(t: Seq<char>) -> bool {
    t == "Ctrl+Space"@ || t == "Shift+Space"@ || t == "Ctrl+Shift+Space"@ || t == "ShiftTap"@
        || t == "none"@
}

pub open spec fn toggle_errors(t: Seq<char>) -> Seq<Seq<char>> {
    if is_listed_toggle(t) {
        Seq::empty()
    } else {
        seq!["mode_toggle: choose one of the listed toggles"@]
    }
}

/// Problems with the global hotkey `g` (only checked when it is enabled).
pub open spec fn hotkey_errors(enabled: bool, g: Seq<char>) -> Seq<Seq<char>> {
    if !enabled {
        Seq::empty()
    } else {
        match hotkey::spec_parse(g) {
            Err(e) => seq!["global_hotkey: "@ + e],
            Ok(_) => reserved_errors(g),
        }
    }
}

/// `a` is used again as `b` (case-insensitively), and is not "none".
pub open spec fn duplicate_errors(a: Seq<char>, b: Seq<char>) -> Seq<Seq<char>> {
    if !eq_ignore_case(a, "none"@) && eq_ignore_case(a, b) {
        seq![a + ": used for two actions"@]
    } else {
        Seq::empty()
    }
}

pub open spec fn page_errors(n: i64) -> Seq<Seq<char>> {
    if 5 <= n <= 9 {
        Seq::empty()
    } else {
        seq!["candidates_per_page: 5 to 9"@]
    }
}

/// Every problem that blocks saving `s`, in the order the UI lists them.
pub open spec fn spec_validate(s: Settings) -> Seq<Seq<char>> {
    chord_errors("key_commit_latin"@, s.key_commit_latin@) + chord_errors(
        "key_open_tashkeel"@,
        s.key_open_tashkeel@,
    ) + chord_errors("key_commit_harakat"@, s.key_commit_harakat@) + toggle_errors(s.mode_toggle@)
        + hotkey_errors(s.global_hotkey_enabled, s.global_hotkey@) + duplicate_errors(
        s.key_commit_latin@,
        s.key_open_tashkeel@,
    ) + duplicate_errors(s.key_commit_latin@, s.key_commit_harakat@) + duplicate_errors(
        s.key_open_tashkeel@,
        s.key_commit_harakat@,
    ) + page_errors(s.candidates_per_page)
}

fn push_reserved(errors: &mut Vec<String>, v: &str)
    ensures
        strings_view(final(errors)@) == strings_view(old(errors)@) + reserved_errors(v@),
{
    let ghost before = strings_view(errors@);
    if let Some(r) = reserved_shortcut(v) {
        let mut m = String::new();
        push_str(&mut m, v);
        push_str(&mut m, ": this shortcut is used ");
        push_str(&mut m, r.en);
        errors.push(m);
        assert(strings_view(errors@) =~= before + reserved_errors(v@));
    } else {
        assert(strings_view(errors@) =~= before + reserved_errors(v@));
    }
}

fn push_chord(errors: &mut Vec<String>, name: &str, v: &str)
    ensures
        strings_view(final(errors)@) == strings_view(old(errors)@) + chord_errors(name@, v@),
{
    let ghost before = strings_view(errors@);
    if !is_chord(v) {
        let mut m = String::new();
        push_str(&mut m, name);
        push_str(&mut m, ": not a valid shortcut");
        errors.push(m);
        assert(strings_view(errors@) =~= before + chord_errors(name@, v@));
    } else {
        push_reserved(errors, v);
    }
}

fn push_duplicate(errors: &mut Vec<String>, a: &str, b: &str)
    ensures
        strings_view(final(errors)@) == strings_view(old(errors)@) + duplicate_errors(a@, b@),
{
    let ghost before = strings_view(errors@);
    let x = chars_of(a);
    let y = chars_of(b);
    let none = chars_of("none");
    if !chars_eq_ignore_case(x.as_slice(), none.as_slice()) && chars_eq_ignore_case(
        x.as_slice(),
        y.as_slice(),
    ) {
        let mut m = String::new();
        push_str(&mut m, a);
        push_str(&mut m, ": used for two actions");
        errors.push(m);
        assert(strings_view(errors@) =~= before + duplicate_errors(a@, b@));
    } else {
        assert(strings_view(errors@) =~= before + duplicate_errors(a@, b@));
    }
}

fn push_one(errors: &mut Vec<String>, msg: &str)
    ensures
        strings_view(final(errors)@) == strings_view(old(errors)@).push(msg@),
{
    let ghost before = strings_view(errors@);
    let mut m = String::new();
    push_str(&mut m, msg);
    errors.push(m);
    assert(strings_view(errors@) =~= before.push(msg@));
}

/// Problems that block saving (invalid values); the UI shows them next to the fields. Empty when
/// `s` can be saved.
pub fn validate(s: &Settings) -> (errors: Vec<String>)
    ensures
        strings_view(errors@) == spec_validate(*s),
{
    let mut errors: Vec<String> = Vec::new();
    push_chord(&mut errors, "key_commit_latin", s.key_commit_latin.as_str());
    push_chord(&mut errors, "key_open_tashkeel", s.key_open_tashkeel.as_str());
    push_chord(&mut errors, "key_commit_harakat", s.key_commit_harakat.as_str());
    let t = s.mode_toggle.as_str();
    let ghost before = strings_view(errors@);
    if !(str_eq(t, "Ctrl+Space") || str_eq(t, "Shift+Space") || str_eq(t, "Ctrl+Shift+Space")
        || str_eq(t, "ShiftTap") || str_eq(t, "none")) {
        push_one(&mut errors, "mode_toggle: choose one of the listed toggles");
    }
    assert(strings_view(errors@) =~= before + toggle_errors(s.mode_toggle@));
    let ghost before = strings_view(errors@);
    if s.global_hotkey_enabled {
        match hotkey::parse(s.global_hotkey.as_str()) {
            Err(e) => {
                let mut m = String::new();
                push_str(&mut m, "global_hotkey: ");
                push_str(&mut m, e.as_str());
                errors.push(m);
            },
            Ok(_) => {
                push_reserved(&mut errors, s.global_hotkey.as_str());
            },
        }
    }
    assert(strings_view(errors@) =~= before + hotkey_errors(
        s.global_hotkey_enabled,
        s.global_hotkey@,
    ));
    push_duplicate(&mut errors, s.key_commit_latin.as_str(), s.key_open_tashkeel.as_str());
    push_duplicate(&mut errors, s.key_commit_latin.as_str(), s.key_commit_harakat.as_str());
    push_duplicate(&mut errors, s.key_open_tashkeel.as_str(), s.key_commit_harakat.as_str());
    let ghost before = strings_view(errors@);
    if !(5 <= s.candidates_per_page && s.candidates_per_page <= 9) {
        push_one(&mut errors, "candidates_per_page: 5 to 9");
    }
    assert(strings_view(errors@) =~= before + page_errors(s.candidates_per_page));
    assert(strings_view(errors@) =~= spec_validate(*s));
    errors
}

/// Why `chord` cannot be used, as (Arabic, English), or `None` if it can. `kind` "hotkey" checks
/// it as the global hotkey, anything else as a typing shortcut.
pub open spec fn spec_check_shortcut(chord: Seq<char>, kind: Seq<char>) -> Option<
    (Seq<char>, Seq<char>),
> {
    if kind == "hotkey"@ && hotkey::spec_parse(chord) is Err {
        Some(("اختصار التفعيل العام يحتاج Ctrl أو Alt"@, "the global hotkey needs Ctrl or Alt"@))
    } else if kind != "hotkey"@ && !spec_is_chord(chord) {
        Some(
            (
                "سيعطّل الكتابة العادية — الأحرف تحتاج Ctrl أو Alt"@,
                "it would get in the way of normal typing — letters need Ctrl or Alt"@,
            ),
        )
    } else {
        match reserved_index(chord) {
            Some(i) => Some(
                (
                    "هذا الاختصار يستخدمه "@ + reason_text(i).1,
                    "this shortcut is used "@ + reason_text(i).0,
                ),
            ),
            None => None,
        }
    }
}

fn owned(s: &str) -> (r: String)
    ensures
        r@ == s@,
{
    let mut m = String::new();
    push_str(&mut m, s);
    m
}

/// Why `chord` cannot be used, in Arabic and English, or `None` if it can. Windows' and common
/// application shortcuts are refused with the reason.
pub fn check_shortcut(chord: &str, kind: &str) -> (r: Option<[String; 2]>)
    ensures
        match spec_check_shortcut(chord@, kind@) {
            Some((ar, en)) => r matches Some(m) && m[0]@ == ar && m[1]@ == en,
            None => r is None,
        },
{
    let is_hotkey = str_eq(kind, "hotkey");
    if is_hotkey {
        if hotkey::parse(chord).is_err() {
            return Some(
                [
                    owned("اختصار التفعيل العام يحتاج Ctrl أو Alt"),
                    owned("the global hotkey needs Ctrl or Alt"),
                ],
            );
        }
    } else if !is_chord(chord) {
        return Some(
            [
                owned("سيعطّل الكتابة العادية — الأحرف تحتاج Ctrl أو Alt"),
                owned("it would get in the way of normal typing — letters need Ctrl or Alt"),
            ],
        );
    }
    match reserved_shortcut(chord) {
        Some(x) => {
            let mut ar = owned("هذا الاختصار يستخدمه ");
            push_str(&mut ar, x.ar);
            let mut en = owned("this shortcut is used ");
            push_str(&mut en, x.en);
            Some([ar, en])
        },
        None => None,
    }
}

/// The only pages the Settings app opens (in the default browser).
pub const LINKS: [&'static str; 4] = [
    "https://buymeacoffee.com/hassanobaida",
    "https://linktr.ee/hassanobaida",
    "https://type3arabi.com/",
    "https://github.com/ArabSeven/type3arabi",
];

/// A page the Settings app may open.
pub open spec fn allowed_link(url: Seq<char>) -> bool {
    exists|i: int| 0 <= i < 4 && url == #[trigger] LINKS[i]@
}

/// Whether `url` may be opened: one of `LINKS`, else an error (opening it is the front-end's).
pub fn open_url(url: &str) -> (r: Result<(), String>)
    ensures
        r is Ok <==> allowed_link(url@),
        r matches Err(e) ==> e@ == "not an allowed link"@,
{
    let mut i: usize = 0;
    while i < 4
        invariant
            i <= 4,
            forall|j: int| 0 <= j < i ==> url@ != #[trigger] LINKS[j]@,
        decreases 4 - i,
    {
        if str_eq(url, LINKS[i]) {
            return Ok(());
        }
        i += 1;
    }
    let mut e = String::new();
    push_str(&mut e, "not an allowed link");
    Err(e)
}

/// What the Settings app shows of a learning file before importing it.
#[derive(Clone, Copy, Debug, PartialEq, Eq, Structural)]
pub struct LearningPreview {
    pub records: usize,
    pub has_settings: bool,
}

/// The number of learning records in a file and whether it carries settings; the message when
/// it is not a valid learning file.
pub fn inspect_learning(bytes: &[u8]) -> (r: Result<LearningPreview, String>)
    ensures
        match r {
            Ok(p) => match crate::learning_file::spec_decode(bytes@) {
                Ok(f) => p.records == f.0.len() && p.has_settings == (f.1 is Some),
                Err(_) => false,
            },
            Err(e) => crate::learning_file::spec_decode(bytes@) == Err::<(Seq<crate::journal::JournalRecord>, Option<Seq<char>>), Seq<char>>(e@),
        },
{
    match crate::learning_file::decode(bytes) {
        Ok(f) => Ok(LearningPreview { records: f.records.len(), has_settings: f.settings.is_some() }),
        Err(e) => Err(e),
    }
}

} // verus!
