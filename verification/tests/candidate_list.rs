use type3arabi::candidates::candidate_list;
use type3arabi::display::{AllahForm, TanweenStyle};
use type3arabi::session::{CandidateKind, EngineSettings};
use type3arabi::tashkeel::HarakatMode;
use type3arabi::user::RAW_LATIN;

fn settings() -> EngineSettings {
    EngineSettings {
        allah_form: AllahForm::Shadda,
        tanween: TanweenStyle::OnAlif,
        hamza_relaxed: false,
        eastern_numerals: false,
        article_joining: true,
        harakat: HarakatMode::Light,
        sticky_last_choice: true,
    }
}

fn pairs(v: &[(&str, bool)]) -> Vec<(String, bool)> {
    v.iter().map(|(s, b)| (s.to_string(), *b)).collect()
}

fn texts(r: &[(String, String, CandidateKind)]) -> Vec<&str> {
    r.iter().map(|c| c.0.as_str()).collect()
}

#[test]
fn numbers_first_and_exclusive_in_the_list() {
    let r = candidate_list("12", "12", true, &settings(), &vec![], &pairs(&[("x", false)]), None, 9);
    assert_eq!(r.len(), 2);
    assert_eq!(r[0].2, CandidateKind::Number);
    assert_eq!(r[1].2, CandidateKind::RawLatin);
    let mut s = settings();
    s.eastern_numerals = true;
    let r = candidate_list("7", "7", true, &s, &vec![], &pairs(&[("\u{062D}", false)]), None, 9);
    assert_eq!(texts(&r), vec!["\u{0667}", "\u{062D}", "7"]);
}

#[test]
fn laughter_joiner_and_phrases_in_place() {
    let r = candidate_list("HHaha", "hhaha", false, &settings(), &vec![], &vec![], None, 9);
    assert_eq!(r[0].0, "\u{0647}\u{0647}\u{0647}");
    assert_eq!(r[0].2, CandidateKind::Laughter);
    let readings = pairs(&[("\u{0627}\u{0644}", false), ("\u{0627}\u{064A}\u{0644}", false)]);
    let phrases = pairs(&[("\u{0623}\u{0647}\u{0644}\u{0627}", true), ("\u{0645}\u{0631}\u{062D}\u{0628}\u{0627}", false)]);
    let r = candidate_list("el", "el", false, &settings(), &phrases, &readings, None, 9);
    assert_eq!(
        texts(&r),
        vec![
            "\u{0627}\u{0644}",
            "\u{0623}\u{0647}\u{0644}\u{0627}",
            "\u{0645}\u{0631}\u{062D}\u{0628}\u{0627}",
            "\u{0627}\u{064A}\u{0644}",
            "el"
        ]
    );
    assert_eq!(r[0].2, CandidateKind::Joiner);
}

#[test]
fn sacred_word_offers_plain_form_and_tanween_is_written() {
    let readings = pairs(&[("\u{0627}\u{0644}\u{0644}\u{0647}", false), ("\u{0634}\u{0643}\u{0631}\u{0627}", true)]);
    let r = candidate_list("allah", "allah", false, &settings(), &vec![], &readings, None, 9);
    assert_eq!(
        texts(&r),
        vec![
            "\u{0627}\u{0644}\u{0644}\u{0651}\u{0647}",
            "\u{0627}\u{0644}\u{0644}\u{0647}",
            "\u{0634}\u{0643}\u{0631}\u{0627}\u{064B}",
            "allah"
        ]
    );
}

#[test]
fn sticky_choice_and_raw_latin_place() {
    let readings = pairs(&[("\u{0643}\u{062A}\u{0628}", false), ("\u{0643}\u{062A}\u{0628}\u{064A}", false)]);
    let r = candidate_list("ktb", "ktb", false, &settings(), &vec![], &readings, Some("\u{0643}\u{062A}\u{0628}\u{064A}".into()), 9);
    assert_eq!(r[0].1, "\u{0643}\u{062A}\u{0628}\u{064A}");
    let r = candidate_list("ktb", "ktb", false, &settings(), &vec![], &readings, Some("\u{0643}\u{0648}".into()), 9);
    assert_eq!((r[0].0.as_str(), r[0].2), ("\u{0643}\u{0648}", CandidateKind::Custom));
    let r = candidate_list("ktb", "ktb", false, &settings(), &vec![], &readings, Some(RAW_LATIN.into()), 9);
    assert_eq!((r[0].0.as_str(), r[0].2), ("ktb", CandidateKind::RawLatin));
    let r = candidate_list("ktb", "ktb", false, &settings(), &vec![], &readings, None, 2);
    assert_eq!(texts(&r), vec!["\u{0643}\u{062A}\u{0628}", "ktb"]);
}

#[test]
fn duplicate_texts_are_dropped() {
    let readings = pairs(&[("\u{0643}\u{062A}\u{0628}", false), ("\u{0643}\u{062A}\u{0628}", false)]);
    let r = candidate_list("ktb", "ktb", false, &settings(), &vec![], &readings, None, 9);
    assert_eq!(r.len(), 2);
}
