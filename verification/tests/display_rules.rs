use type3arabi::arabic::is_clean_output;
use type3arabi::display::{
    add_tanween_fath, contains_sacred, numerals, punctuation, relax_hamza, style_sacred, AllahForm,
    TanweenStyle,
};

#[test]
fn sacred_styles() {
    assert_eq!(
        style_sacred("الله", AllahForm::Shadda),
        "\u{0627}\u{0644}\u{0644}\u{0651}\u{0647}"
    );
    assert_eq!(
        style_sacred("الله", AllahForm::ShaddaFatha),
        "\u{0627}\u{0644}\u{0644}\u{0651}\u{064E}\u{0647}"
    );
    assert_eq!(
        style_sacred("الله", AllahForm::ShaddaDagger),
        "\u{0627}\u{0644}\u{0644}\u{0651}\u{0670}\u{0647}"
    );
    assert_eq!(style_sacred("إن شاء الله", AllahForm::Shadda), "إن شاء اللّه");
    assert_eq!(style_sacred("اللهم", AllahForm::Shadda), "اللّهم");
    assert_eq!(style_sacred("لله", AllahForm::Shadda), "للّه");
    for w in ["كله", "له", "ظله", "إله"] {
        assert_eq!(style_sacred(w, AllahForm::Shadda), w);
    }
    assert_eq!(style_sacred("الله", AllahForm::Plain), "الله");
}

#[test]
fn tanween_and_misc() {
    assert_eq!(add_tanween_fath("شكرا", TanweenStyle::OnAlif), "شكرا\u{064B}");
    assert_eq!(add_tanween_fath("شكرا", TanweenStyle::BeforeAlif), "شكر\u{064B}ا");
    assert_eq!(add_tanween_fath("مدرسة", TanweenStyle::OnAlif), "مدرسة");
    assert_eq!(relax_hamza("أحمد إلى آخر"), "احمد الى اخر");
    assert_eq!(numerals("2026", true), "٢٠٢٦");
    assert_eq!(punctuation('?', true), '؟');
    assert!(is_clean_output(&style_sacred("والله", AllahForm::ShaddaDagger)));
}

#[test]
fn western_numerals_and_latin_punctuation_pass_through() {
    assert_eq!(numerals("2026", false), "2026");
    assert_eq!(punctuation('?', false), '?');
    assert_eq!(punctuation(',', true), '،');
    assert_eq!(punctuation(';', true), '؛');
}

#[test]
fn sacred_detection() {
    assert!(contains_sacred("إن شاء الله"));
    assert!(!contains_sacred("كله"));
}

#[test]
fn style_names_parse() {
    assert_eq!(AllahForm::parse("shadda"), Some(AllahForm::Shadda));
    assert_eq!(AllahForm::parse("fancy"), None);
    assert_eq!(TanweenStyle::parse("on_alif"), Some(TanweenStyle::OnAlif));
}

#[test]
fn sacred_words_styled_across_any_white_space() {
    assert_eq!(
        style_sacred("الله\tالله", AllahForm::Shadda),
        "الل\u{0651}ه\tالل\u{0651}ه"
    );
    assert_eq!(style_sacred("الله\nو الله ", AllahForm::Shadda), "الل\u{0651}ه\nو الل\u{0651}ه ");
    assert!(contains_sacred("قال\tالله"));
    for t in ["قال\tالله", "كله", "إن شاء الله", "له  له"] {
        assert_eq!(contains_sacred(t), style_sacred(t, AllahForm::Shadda) != t);
    }
}
