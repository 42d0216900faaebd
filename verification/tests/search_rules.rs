use type3arabi::data::records::{Chunk, Rule};
use type3arabi::oov::{doubled_half, pos_set};
use type3arabi::search::{compiled_rules, doubled_consonant, latin_bytes, repeats_previous, variant_groups};
use type3arabi::seed::{F_GEM, F_VOWEL, POS_ANY, POS_F, POS_I, POS_M};

fn chunk(latin: &str, first_rule: u16, rule_count: u16) -> Chunk {
    let mut l = [0u8; 4];
    for (i, b) in latin.bytes().enumerate() {
        l[i] = b;
    }
    Chunk { latin: l, len: latin.len() as u8, first_rule, rule_count, ..Default::default() }
}

fn rule(code: u8, pos_mask: u8) -> Rule {
    Rule { arabic: [code, 0, 0], arabic_len: 1, pos_mask, ..Default::default() }
}

#[test]
fn compiled_rules_most_specific_wins() {
    let chunks = vec![chunk("h", 0, 2), chunk("t", 2, 1)];
    let rules = vec![rule(33, POS_ANY), rule(9, POS_F), rule(10, POS_ANY)];
    assert_eq!(compiled_rules(&chunks, &rules, b"h", POS_F), Some(vec![1]));
    assert_eq!(compiled_rules(&chunks, &rules, b"h", POS_M), Some(vec![0]));
    assert_eq!(compiled_rules(&chunks, &rules, b"t", POS_I), Some(vec![2]));
    assert_eq!(compiled_rules(&chunks, &rules, b"q", POS_I), None);
}

#[test]
fn latin_bytes_map_emphatics() {
    assert_eq!(latin_bytes(&['T', 'a']), vec![1, b'a']);
}

#[test]
fn doubled_consonants() {
    assert!(doubled_consonant(&['l', 'l']));
    assert!(doubled_consonant(&['7', '7']));
    assert!(!doubled_consonant(&['a', 'a']));
    assert!(!doubled_consonant(&['\'', '\'']));
    assert!(!doubled_consonant(&['l', 'b']));
    assert_eq!(doubled_half(&['s', 'h', 's', 'h']), Some(2));
    assert_eq!(doubled_half(&['b', 'b']), Some(1));
    assert_eq!(doubled_half(&['e', 'e']), None);
    assert_eq!(doubled_half(&['b', 'a', 'b', 'a']), None);
    assert_eq!(doubled_half(&['b']), None);
}

#[test]
fn doubling_penalty_applies_to_repeats() {
    assert!(repeats_previous(&['l'], &[30], &['l'], &[30], 0));
    assert!(!repeats_previous(&['l'], &[30], &['l'], &[30], F_VOWEL));
    assert!(!repeats_previous(&['a'], &[7], &['a'], &[7], 0));
    assert!(!repeats_previous(&['l'], &[30], &['l'], &[31], F_GEM));
}

#[test]
fn position_sets() {
    assert_eq!(pos_set(0, 3, 3), POS_I | POS_F);
    assert_eq!(pos_set(0, 1, 3), POS_I);
    assert_eq!(pos_set(1, 3, 3), POS_F);
    assert_eq!(pos_set(1, 2, 3), POS_M);
}

#[test]
fn hamza_variant_groups() {
    let words: Vec<String> = vec![
        "\u{0627}\u{0643}\u{062A}\u{0628}".into(),
        "\u{0628}\u{064A}\u{062A}".into(),
        "\u{0623}\u{0643}\u{062A}\u{0628}".into(),
        "\u{0625}\u{0643}\u{062A}\u{0628}".into(),
        "\u{0622}\u{0645}\u{0646}".into(),
    ];
    assert_eq!(variant_groups(&words), vec![vec![0, 2, 3]]);
}
