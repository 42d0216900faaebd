use type3arabi::profile::{
    exit_status, is_enabled, kept_on_enable, layout_fate, names_entry, LayoutFate, LANG, TIP,
};

fn v(items: &[&str]) -> Vec<String> {
    items.iter().map(|s| s.to_string()).collect()
}

#[test]
fn enabled_when_saved_list_names_the_input() {
    assert!(!is_enabled(&v(&["0401:00000401"])));
    assert!(is_enabled(&v(&["0401:00000401", &TIP.to_lowercase()])));
    assert!(names_entry(&v(&["en-US", "AR-sa"]), LANG));
}

#[test]
fn enable_keeps_only_chosen_inputs() {
    let saved = v(&["0401:00000401"]);
    assert_eq!(kept_on_enable(&v(&["en-US", "ar-SA"]), saved.clone()), saved);
    assert!(kept_on_enable(&v(&["en-US"]), saved).is_empty());
}

#[test]
fn fate_of_loaded_layouts() {
    let saved = v(&["0401:00000401"]);
    assert_eq!(layout_fate(false, "0401:00000401", &saved), LayoutFate::Keep);
    assert_eq!(layout_fate(true, "0401:00000401", &saved), LayoutFate::RemoveAndUnload);
    assert_eq!(layout_fate(true, "0401:00020401", &saved), LayoutFate::Unload);
    assert_eq!(exit_status(true), 0);
    assert_eq!(exit_status(false), 1);
}
