use type3arabi::hotkey::{modifiers, parse, toggle, MOD_ALT, MOD_CONTROL, MOD_NOREPEAT, MOD_SHIFT, MOD_WIN};

const EN_US: u64 = 0x0409_0409;
const AR_SA: u64 = 0x0401_0401;
const FR_FR: u64 = 0x040C_040C;

#[test]
fn hotkey_modifier_flags() {
    let h = parse("Ctrl+Alt+Q").unwrap();
    assert_eq!(modifiers(&h), MOD_NOREPEAT | MOD_CONTROL | MOD_ALT);
    let h = parse("Win+Shift+F9").unwrap();
    assert_eq!(modifiers(&h), MOD_NOREPEAT | MOD_WIN | MOD_SHIFT);
}

#[test]
fn toggling_goes_to_arabic_and_back() {
    let loaded = [EN_US, AR_SA, FR_FR];
    let (to, last) = toggle(FR_FR, 0, &loaded);
    assert_eq!((to, last), (Some(AR_SA), FR_FR));
    assert_eq!(toggle(AR_SA, last, &loaded), (Some(FR_FR), FR_FR));
}

#[test]
fn toggling_from_arabic_without_memory() {
    assert_eq!(toggle(AR_SA, 0, &[AR_SA, EN_US, FR_FR]), (Some(EN_US), 0));
    assert_eq!(toggle(AR_SA, FR_FR, &[AR_SA, EN_US]), (Some(EN_US), FR_FR));
    assert_eq!(toggle(EN_US, 7, &[EN_US, FR_FR]), (None, EN_US));
}
