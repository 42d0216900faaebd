use type3arabi::alphabet::encode;
use type3arabi::arabic::{canonical_mark_order, FATHA, KASRA};
use type3arabi::dialect::Dialect;
use type3arabi::display::TanweenStyle;
use type3arabi::oov::Step;
use type3arabi::seed::{VowelMarks, F_GEM, F_TANWEEN, F_VOWEL};
use type3arabi::tashkeel::{vowel_harakat, HarakatMode};

fn marks() -> VowelMarks {
    VowelMarks {
        rows: vec![
            ("a".to_string(), 0, FATHA),
            ("i".to_string(), 0, KASRA),
            ("e".to_string(), Dialect::Lev.bit(), KASRA),
            ("e".to_string(), 0, FATHA),
        ],
    }
}

fn step(latin: &str, arabic: &str, flags: u8) -> Step {
    Step { latin: latin.chars().collect(), arabic: encode(arabic).unwrap(), flags }
}

fn voc(steps: &[Step], d: Dialect, mode: HarakatMode) -> String {
    vowel_harakat(steps, &marks(), d, mode, TanweenStyle::OnAlif).unwrap()
}

fn allam() -> Vec<Step> {
    vec![
        step("3", "\u{0639}", 0),
        step("a", "", F_VOWEL),
        step("ll", "\u{0644}", F_GEM),
        step("a", "", F_VOWEL),
        step("m", "\u{0645}", 0),
    ]
}

#[test]
fn documented_vocalizations() {
    assert_eq!(
        voc(&allam(), Dialect::Msa, HarakatMode::Light),
        "\u{0639}\u{064E}\u{0644}\u{0651}\u{064E}\u{0645}"
    );
    let ilm = vec![
        step("3", "\u{0639}", 0),
        step("i", "", F_VOWEL),
        step("l", "\u{0644}", 0),
        step("m", "\u{0645}", 0),
    ];
    assert_eq!(voc(&ilm, Dialect::Msa, HarakatMode::Light), "\u{0639}\u{0650}\u{0644}\u{0645}");
    assert_eq!(
        voc(&ilm, Dialect::Msa, HarakatMode::Full),
        "\u{0639}\u{0650}\u{0644}\u{0652}\u{0645}"
    );
    let madrase = vec![
        step("m", "\u{0645}", 0),
        step("a", "", F_VOWEL),
        step("d", "\u{062F}", 0),
        step("r", "\u{0631}", 0),
        step("a", "", F_VOWEL),
        step("s", "\u{0633}", 0),
        step("e", "\u{0629}", 0),
    ];
    assert_eq!(
        voc(&madrase, Dialect::Lev, HarakatMode::Light),
        "\u{0645}\u{064E}\u{062F}\u{0631}\u{064E}\u{0633}\u{0629}"
    );
}

#[test]
fn vocalized_words_keep_canonical_mark_order() {
    let s = voc(&allam(), Dialect::Msa, HarakatMode::Light);
    assert_eq!(canonical_mark_order(&s), s);
}

#[test]
fn vowel_marks_follow_dialect() {
    let kitab = |e_dialect| {
        voc(
            &[step("b", "\u{0628}", 0), step("e", "", F_VOWEL), step("t", "\u{062A}", 0)],
            e_dialect,
            HarakatMode::Light,
        )
    };
    assert_eq!(kitab(Dialect::Lev), "\u{0628}\u{0650}\u{062A}");
    assert_eq!(kitab(Dialect::Msa), "\u{0628}\u{064E}\u{062A}");
}

#[test]
fn tanween_on_final_alif() {
    let steps = [step("shukr", "\u{0634}\u{0643}\u{0631}", 0), step("an", "\u{0627}", F_TANWEEN)];
    assert_eq!(
        vowel_harakat(&steps, &marks(), Dialect::Msa, HarakatMode::Light, TanweenStyle::OnAlif).unwrap(),
        "\u{0634}\u{0643}\u{0631}\u{0627}\u{064B}"
    );
    assert_eq!(
        vowel_harakat(&steps, &marks(), Dialect::Msa, HarakatMode::Light, TanweenStyle::Off).unwrap(),
        "\u{0634}\u{0643}\u{0631}\u{0627}"
    );
    assert!(vowel_harakat(&[], &marks(), Dialect::Msa, HarakatMode::Light, TanweenStyle::OnAlif).is_none());
}
