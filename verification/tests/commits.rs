use type3arabi::session::{
    commit_candidate, commit_index, commit_raw, CandidateKind, CommitHow, Trailing,
};
use type3arabi::user::RAW_LATIN;

fn commit(kind: CandidateKind, how: CommitHow, harakat: Option<&str>) -> type3arabi::session::Commit {
    commit_candidate(
        "\u{0627}\u{0644}".into(),
        "base".into(),
        kind,
        "el".into(),
        2,
        how,
        harakat.map(String::from),
    )
}

#[test]
fn joiner_has_no_trailing_space() {
    assert_eq!(commit(CandidateKind::Joiner, CommitHow::Space, None).trailing, Trailing::NoSpace);
    assert_eq!(commit(CandidateKind::Word, CommitHow::Space, None).trailing, Trailing::Space);
    assert_eq!(commit(CandidateKind::Word, CommitHow::Enter, None).trailing, Trailing::NoSpace);
    assert_eq!(
        commit(CandidateKind::Word, CommitHow::Punctuation, None).trailing,
        Trailing::NoSpace
    );
}

#[test]
fn what_is_learned() {
    assert!(commit(CandidateKind::Word, CommitHow::Space, None).learnable);
    assert!(!commit(CandidateKind::Number, CommitHow::Space, None).learnable);
    assert!(!commit(CandidateKind::Laughter, CommitHow::Space, None).learnable);
    assert!(!commit(CandidateKind::Joiner, CommitHow::Space, None).learnable);
    let raw = commit(CandidateKind::RawLatin, CommitHow::Space, None);
    assert!(raw.learnable);
    assert_eq!(raw.base, RAW_LATIN);
    assert_eq!(raw.key, "el");
    assert_eq!(raw.rank, 2);
}

#[test]
fn ctrl_enter_commits_the_vocalized_text() {
    let c = commit(CandidateKind::Word, CommitHow::WithHarakat, Some("\u{0627}\u{064E}\u{0644}"));
    assert_eq!(c.text, "\u{0627}\u{064E}\u{0644}");
    let c = commit(CandidateKind::Word, CommitHow::Space, Some("\u{0627}\u{064E}\u{0644}"));
    assert_eq!(c.text, "\u{0627}\u{0644}");
    let c = commit(CandidateKind::Word, CommitHow::WithHarakat, None);
    assert_eq!(c.text, "\u{0627}\u{0644}");
}

#[test]
fn commit_of_an_empty_list_is_the_latin() {
    let c = commit_raw("xyz".into());
    assert_eq!((c.text.as_str(), c.base.as_str(), c.key.as_str()), ("xyz", "xyz", ""));
    assert_eq!(c.kind, CandidateKind::RawLatin);
    assert!(!c.learnable);
    assert_eq!(commit_index(7, 3), 2);
    assert_eq!(commit_index(1, 3), 1);
    assert_eq!(commit_index(4, 0), 0);
}
