use type3arabi::normalize::{fold, InputChar, LatinBuffer, EMPH_S, EMPH_T};

fn buf(s: &str) -> LatinBuffer {
    let mut b = LatinBuffer::new();
    b.set(s);
    b
}

#[test]
fn case_rules() {
    assert_eq!(buf("Sba7").syms(), &['s', 'b', 'a', '7']);
    assert_eq!(buf("mSTTi").syms(), &['m', EMPH_S, EMPH_T, EMPH_T, 'i']);
    assert_eq!(buf("ISA").syms(), &['i', 's', 'a']);
    assert_eq!(buf("maRhaba").syms(), &['m', 'a', 'r', 'h', 'a', 'b', 'a']);
}

#[test]
fn elongation_and_accents() {
    assert_eq!(buf("7abibiiiii").key(), "7abibii");
    assert_eq!(buf("chérie").key(), "cherie");
    assert_eq!(buf("3’").syms(), &['3', '\'']);
}

#[test]
fn numbers_and_raw() {
    assert!(buf("2026").is_number());
    assert!(!buf("3ala").is_number());
    let mut b = LatinBuffer::new();
    b.push(InputChar::numpad('3'));
    assert!(b.is_number());
    assert_eq!(buf("Mar7aba").raw(), "Mar7aba");
    let mut b = LatinBuffer::new();
    assert!(!b.push(InputChar::new(',')));
    assert!(b.is_empty());
}

#[test]
fn pop_undoes_push() {
    let mut b = buf("mar7");
    let before = b.raw();
    assert!(b.push(InputChar::new('a')));
    assert!(b.pop());
    assert_eq!(b.raw(), before);
    b.clear();
    assert!(b.is_empty());
    assert!(!b.pop());
}

#[test]
fn no_letter_runs_longer_than_two() {
    let b = buf("yaaaaalla");
    assert_eq!(b.key(), "yaalla");
}

#[test]
fn accents_fold_to_ascii() {
    assert_eq!(fold('é'), 'e');
    assert_eq!(fold('a'), 'a');
}

#[test]
fn pushing_each_character_is_setting_the_text() {
    for text in ["Mar7aba", "3a2ilah", "ya s'a7bi", "6ayyib!"] {
        let mut pushed = LatinBuffer::new();
        for c in text.chars() {
            pushed.push(InputChar::new(c));
        }
        let mut set = LatinBuffer::new();
        set.set(text);
        assert_eq!(pushed.syms(), set.syms(), "{text}");
    }
}

#[test]
fn rebuilding_from_raw_gives_the_same_symbols() {
    let mut b = LatinBuffer::new();
    for c in "Sa7bi 3!".chars() {
        b.push(InputChar::new(c));
    }
    b.push(InputChar::numpad('5'));
    assert_eq!(b.raw(), "Sa7bi35");
    let mut fresh = LatinBuffer::new();
    fresh.set(&b.raw());
    assert_eq!(fresh.syms(), b.syms());
}
