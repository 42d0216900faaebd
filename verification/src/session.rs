//! Engine-facing settings and the values a session hands to the front-end.
use vstd::prelude::*;
use crate::config::Config;
use crate::display::{AllahForm, TanweenStyle};
use crate::tashkeel::HarakatMode;
use crate::text::{push_str, str_eq};
use crate::user::RAW_LATIN;

verus! {

#[derive(Debug)]
pub enum EngineError {
    /// The lexicon engine (data file) is not available yet; use the seed-only engine.
    LexiconNotImplemented,
    BadData(String),
}

/// The subset of `Config` the engine needs.
#[derive(Clone, Debug)]
pub struct EngineSettings {
    pub allah_form: AllahForm,
    pub tanween: TanweenStyle,
    pub hamza_relaxed: bool,
    pub eastern_numerals: bool,
    pub article_joining: bool,
    pub harakat: HarakatMode,
    pub sticky_last_choice: bool,
}

impl EngineSettings {
    /// The engine settings a configuration asks for.
    pub open spec fn spec_from(c: &Config) -> EngineSettings {
        EngineSettings {
            allah_form: match AllahForm::spec_parse(c.allah_form@) {
                Some(f) => f,
                None => AllahForm::Shadda,
            },
            tanween: if c.adverbial_tanween {
                match TanweenStyle::spec_parse(c.tanween_style@) {
                    Some(t) => t,
                    None => TanweenStyle::OnAlif,
                }
            } else {
                TanweenStyle::Off
            },
            hamza_relaxed: c.hamza@ == "relaxed"@,
            eastern_numerals: c.numerals@ == "eastern"@,
            article_joining: c.article_joining,
            harakat: if c.vowel_harakat@ == "full"@ {
                HarakatMode::Full
            } else {
                HarakatMode::Light
            },
            sticky_last_choice: c.sticky_last_choice && c.learning_enabled,
        }
    }

    pub fn from_config(c: &Config) -> (r: Self)
        ensures
            r == Self::spec_from(c),
    {
        EngineSettings {
            allah_form: c.allah_form(),
            tanween: c.tanween(),
            hamza_relaxed: str_eq(c.hamza.as_str(), "relaxed"),
            eastern_numerals: str_eq(c.numerals.as_str(), "eastern"),
            article_joining: c.article_joining,
            harakat: c.harakat_mode(),
            sticky_last_choice: c.sticky_last_choice && c.learning_enabled,
        }
    }
}

impl Default for EngineSettings {
    fn default() -> (r: Self)
        ensures
            exists|c: Config| c.view() == crate::config::default_view() && r == Self::spec_from(&c),
    {
        let c = Config::default();
        Self::from_config(&c)
    }
}

#[derive(Clone, Copy, Debug, PartialEq, Eq, Structural)]
pub enum CandidateKind {
    Word,
    Completion,
    Oov,
    Phrase,
    Number,
    Custom,
    Joiner,
    Laughter,
    RawLatin,
}

#[derive(Clone, Copy, Debug, PartialEq, Eq, Structural)]
pub enum CommitHow {
    /// Space or mouse click: trailing space unless the candidate is a joiner.
    Space,
    /// Enter: no trailing space.
    Enter,
    /// Punctuation key: no trailing space (the front-end inserts the punctuation).
    Punctuation,
    /// Ctrl+Enter: insert with harakat derived from the typed vowels.
    WithHarakat,
}

#[derive(Clone, Copy, Debug, PartialEq, Eq, Structural)]
pub enum Trailing {
    Space,
    /// No trailing character.
    NoSpace,
}

/// Result of a commit. The front-end inserts `text` (+ trailing) and, if `learnable`, records
/// `(key, base, rank)` in the user store.
#[derive(Clone, Debug)]
pub struct Commit {
    pub text: String,
    pub trailing: Trailing,
    pub key: String,
    pub base: String,
    pub rank: usize,
    pub kind: CandidateKind,
    pub learnable: bool,
}

/// The candidate committed for a requested index: the index, kept within a list of `len`
/// candidates (0 for an empty list).
pub open spec fn spec_commit_index(index: int, len: int) -> int {
    let last = if len > 0 { len - 1 } else { 0 };
    if index < last {
        index
    } else {
        last
    }
}

pub fn commit_index(index: usize, len: usize) -> (r: usize)
    ensures
        r == spec_commit_index(index as int, len as int),
{
    let last = if len > 0 { len - 1 } else { 0 };
    if index < last {
        index
    } else {
        last
    }
}

/// The character after a committed word: a space after Space, except after a joiner (which
/// attaches to the next word); none after Enter, punctuation or Ctrl+Enter.
pub open spec fn spec_trailing(how: CommitHow, kind: CandidateKind) -> Trailing {
    if kind == CandidateKind::Joiner {
        Trailing::NoSpace
    } else if how == CommitHow::Space {
        Trailing::Space
    } else {
        Trailing::NoSpace
    }
}

/// Numbers, laughter and joiners are not learned.
pub open spec fn spec_learnable(kind: CandidateKind) -> bool {
    !(kind == CandidateKind::Number || kind == CandidateKind::Laughter || kind
        == CandidateKind::Joiner)
}

/// The commit of candidate number `rank` (text `text`, base `base`, kind `kind`) of the list for
/// the Latin key `key`; with Ctrl+Enter the vocalized text, when there is one, replaces the
/// text. The raw-Latin row is recorded under the raw-Latin marker.
pub fn commit_candidate(
    text: String,
    base: String,
    kind: CandidateKind,
    key: String,
    rank: usize,
    how: CommitHow,
    harakat: Option<String>,
) -> (r: Commit)
    ensures
        r.text@ == (match harakat {
            Some(h) => if how == CommitHow::WithHarakat {
                h@
            } else {
                text@
            },
            None => text@,
        }),
        r.trailing == spec_trailing(how, kind),
        r.key@ == key@,
        r.base@ == if kind == CandidateKind::RawLatin {
            RAW_LATIN@
        } else {
            base@
        },
        r.rank == rank,
        r.kind == kind,
        r.learnable == spec_learnable(kind),
{
    let text = match harakat {
        Some(h) => if how == CommitHow::WithHarakat {
            h
        } else {
            text
        },
        None => text,
    };
    let trailing = if kind == CandidateKind::Joiner {
        Trailing::NoSpace
    } else if how == CommitHow::Space {
        Trailing::Space
    } else {
        Trailing::NoSpace
    };
    let base = if kind == CandidateKind::RawLatin {
        let mut b = String::new();
        push_str(&mut b, RAW_LATIN);
        assert(b@ =~= RAW_LATIN@);
        b
    } else {
        base
    };
    let learnable = !(kind == CandidateKind::Number || kind == CandidateKind::Laughter || kind
        == CandidateKind::Joiner);
    Commit { text, trailing, key, base, rank, kind, learnable }
}

/// The commit when the list is empty: the Latin as typed, not learned.
pub fn commit_raw(raw: String) -> (r: Commit)
    ensures
        r.text@ == raw@,
        r.base@ == raw@,
        r.trailing == Trailing::NoSpace,
        r.key@ == Seq::<char>::empty(),
        r.rank == 0,
        r.kind == CandidateKind::RawLatin,
        !r.learnable,
{
    let base = raw.clone();
    Commit {
        text: raw,
        trailing: Trailing::NoSpace,
        key: String::new(),
        base,
        rank: 0,
        kind: CandidateKind::RawLatin,
        learnable: false,
    }
}

} // verus!
