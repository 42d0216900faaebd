use type3arabi::dialect::Dialect;
use type3arabi::json::json_str;
use type3arabi::selftrain::{parse_spec, word_types, TypeTally};

#[test]
fn json_escapes_quotes_backslashes_and_controls() {
    let mut s = String::new();
    json_str(&mut s, "a\"b\\c\nd");
    assert_eq!(s, "\"a\\\"b\\\\c\\u000ad\"");
}

#[test]
fn json_appends_and_keeps_arabic() {
    let mut s = String::from("{\"t\":");
    json_str(&mut s, "سلام\u{1f}");
    assert_eq!(s, "{\"t\":\"سلام\\u001f\"");
}

#[test]
fn spec_parses_windows_paths_and_optional_source() {
    let c = parse_spec(r"C:\data\nilechat-arabizi-egy\arabizi.txt:EGY").unwrap();
    assert_eq!(c.path, r"C:\data\nilechat-arabizi-egy\arabizi.txt");
    assert_eq!(c.dialect, Dialect::Egy);
    assert_eq!(c.source, "nilechat-arabizi-egy");
    let c = parse_spec("raw/mor.txt:MAG:nilechat-arabizi-mor").unwrap();
    assert_eq!(c.path, "raw/mor.txt");
    assert_eq!(c.source, "nilechat-arabizi-mor");
    assert!(parse_spec("raw/mor.txt").is_none());
}

#[test]
fn spec_without_folder_is_mono() {
    let c = parse_spec("arabizi.txt:lev").unwrap();
    assert_eq!(c.path, "arabizi.txt");
    assert_eq!(c.dialect, Dialect::Lev);
    assert_eq!(c.source, "mono");
    assert!(parse_spec("a.txt:XYZ:src").is_none());
}

#[test]
fn types_are_lowercased_filtered_and_counted() {
    let types = word_types("Mar7aba ya 3am, mar7aba! 123 el-gowa");
    assert_eq!(types, vec!["mar7aba", "3am", "mar7aba", "gowa"]);
}

#[test]
fn word_types_drop_long_runs() {
    let types = word_types("abcdefghijklmnopqrstu abc");
    assert_eq!(types, vec!["abc"]);
}

fn strings(ws: &[&str]) -> Vec<String> {
    ws.iter().map(|w| w.to_string()).collect()
}

#[test]
fn tally_counts_each_occurrence() {
    let mut t = TypeTally::new();
    let a = word_types("mar7aba ya 3am, mar7aba! Mar7aba");
    assert!(t.has_room(a.len()));
    t.add_types(&a);
    t.add_types(&strings(&["3am", "kifak"]));
    assert_eq!(t.count("mar7aba"), 3);
    assert_eq!(t.count("3am"), 2);
    assert_eq!(t.count("kifak"), 1);
    assert_eq!(t.count("ya"), 0);
}

#[test]
fn ranking_is_by_count_then_type() {
    let mut t = TypeTally::new();
    t.add_types(&strings(&["zzz", "bbb", "aaa", "bbb", "ccc", "zzz", "ddd", "ddd", "ddd"]));
    let all = t.ranked(1, usize::MAX);
    let got: Vec<(&str, u32)> = all.iter().map(|(w, n)| (w.as_str(), *n)).collect();
    assert_eq!(got, vec![("ddd", 3), ("bbb", 2), ("zzz", 2), ("aaa", 1), ("ccc", 1)]);
    let top = t.ranked(2, 2);
    let got: Vec<(&str, u32)> = top.iter().map(|(w, n)| (w.as_str(), *n)).collect();
    assert_eq!(got, vec![("ddd", 3), ("bbb", 2)]);
    assert!(t.ranked(4, 10).is_empty());
    assert!(t.ranked(1, 0).is_empty());
}

#[test]
fn room_runs_out_near_the_top() {
    let t = TypeTally::new();
    assert!(t.has_room(10));
    assert!(!t.has_room(u32::MAX as usize + 1));
}

#[test]
fn dialect_codes_read_back_in_any_case_and_padded() {
    for d in [Dialect::Msa, Dialect::Lev, Dialect::Egy, Dialect::Glf, Dialect::Irq, Dialect::Mag] {
        assert_eq!(Dialect::parse(d.code()), Some(d));
        assert_eq!(Dialect::parse(&format!(" \t{}\n", d.code().to_lowercase())), Some(d));
    }
    assert_eq!(Dialect::parse("eGy"), Some(Dialect::Egy));
    assert_eq!(Dialect::parse("EG Y"), None);
}
