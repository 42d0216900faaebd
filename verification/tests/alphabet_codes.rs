use type3arabi::alphabet::{char_of, code_of, decode, encode, is_letter, COUNT};
use type3arabi::arabic::{canonical_mark_order, is_clean_output, normalize_word, strip_marks};
use type3arabi::charlm::{fingerprint, slot, CharLm};
use type3arabi::data::records::ChlmEntry;

#[test]
fn roundtrip_all_codes() {
    for code in 1..=COUNT {
        let c = char_of(code).unwrap();
        assert_eq!(code_of(c), Some(code));
    }
    assert_eq!(char_of(0), None);
    assert_eq!(char_of(43), None);
}

#[test]
fn table_matches_docs() {
    assert_eq!(code_of('ء'), Some(1));
    assert_eq!(code_of('ا'), Some(7));
    assert_eq!(code_of('ع'), Some(25));
    assert_eq!(code_of('ي'), Some(36));
    assert_eq!(code_of('گ'), Some(42));
    assert_eq!(encode("سلام"), Some(vec![19, 30, 7, 31]));
    assert_eq!(decode(&[13, 8, 36, 8, 36]), "حبيبي");
}

#[test]
fn encode_refuses_non_letters() {
    assert_eq!(encode("سلام!"), None);
    assert!(is_letter('ب'));
    assert!(!is_letter('b'));
}

#[test]
fn mark_order_is_shadda_then_vowel() {
    let nfc = "\u{0627}\u{0644}\u{0644}\u{064E}\u{0651}\u{0647}";
    assert_eq!(
        canonical_mark_order(nfc),
        "\u{0627}\u{0644}\u{0644}\u{0651}\u{064E}\u{0647}"
    );
}

#[test]
fn clean_output_detects_tatweel() {
    assert!(is_clean_output("مرحبا"));
    assert!(!is_clean_output("مرحـبا"));
    assert!(is_clean_output("ﷺ"));
}

#[test]
fn strip_marks_keeps_letters_only() {
    assert_eq!(strip_marks("مَرْحَبًا"), "مرحبا");
}

#[test]
fn normalize_word_is_idempotent_on_examples() {
    for w in ["مَرْحَبًا", "اللَّه", "سلام", "ـمرحبا"] {
        let once = normalize_word(w);
        assert_eq!(normalize_word(&once), once);
    }
}

#[test]
fn fingerprint_never_zero_and_order_sensitive() {
    assert_ne!(fingerprint(&[]), 0);
    assert_ne!(fingerprint(&[1, 2]), fingerprint(&[2, 1]));
}

#[test]
fn slot_stays_inside_the_table() {
    for fp in [0u32, 1, 7, 1234567, u32::MAX] {
        assert!(slot(fp, 64) < 64);
    }
}

#[test]
fn char_lm_tables_of_power_of_two_size() {
    let e = ChlmEntry::default();
    assert!(CharLm::new(&[]).is_none());
    assert_eq!(CharLm::new(&[e]).map(|lm| lm.capacity()), Some(1));
    assert!(CharLm::new(&[e, e, e]).is_none());
    assert_eq!(CharLm::new(&[e; 4]).map(|lm| lm.capacity()), Some(4));
    assert_eq!(slot(0xDEAD_BEEF, 1), 0);
}

#[test]
fn mark_ordering_twice_is_ordering_once() {
    for w in ["\u{0639}\u{064E}\u{0651}\u{0644}", "\u{0627}\u{0644}\u{0644}\u{064E}\u{0651}\u{0647}", "\u{064E}ب\u{0670}\u{0651}"] {
        let once = canonical_mark_order(w);
        assert_eq!(canonical_mark_order(&once), once);
        assert_eq!(strip_marks(&once), strip_marks(w));
    }
    assert_eq!(
        canonical_mark_order("\u{0627}\u{0644}\u{0644}\u{064E}\u{0651}\u{0647}"),
        "\u{0627}\u{0644}\u{0644}\u{0651}\u{064E}\u{0647}"
    );
}

#[test]
fn each_run_of_marks_is_laid_out_in_typing_order() {
    // fatha, kasra, shadda, superscript alef, sukun after one letter
    let w = "\u{0639}\u{064E}\u{0650}\u{0651}\u{0670}\u{0652}\u{0644}";
    assert_eq!(canonical_mark_order(w), "\u{0639}\u{0651}\u{0652}\u{0670}\u{0644}");
    // marks with no letter before them
    assert_eq!(canonical_mark_order("\u{0670}\u{064E}\u{0651}"), "\u{0651}\u{064E}\u{0670}");
}
