use type3arabi::alphabet::decode;
use type3arabi::arabic::{FATHA, KASRA};
use type3arabi::dialect::Dialect;
use type3arabi::seed::{
    data_lines, flag_names, latin_char, latin_text, parse_flags, parse_latin, parse_pos,
    SeedTables, F_ARTICLE, F_GEM, F_TANWEEN, F_VOWEL, POS_ANY, POS_F, POS_I, POS_M,
};

const MAPPINGS: &str = "# Latin to Arabic rules\n\
latin\tarabic\tweight\tpos\tdialects\tflags\n\
9\t\u{0635}\t0.6\t*\t*\t-\n\
9\t\u{0642}\t0.9\t*\tMAG\t-\n\
\n\
h\t\u{0647}\t1.0\t*\t*\t-\n\
h\t\u{0629}\t1.0\tF\t*\t-\n\
aa\t\u{0627}\t1.0\tIM\t*\tVOWEL\n";

const PHRASES: &str = "key\toutput\tdialects\tdefault\n\
inshallah\t\u{0625}\u{0646} \u{0634}\u{0627}\u{0621} \u{0627}\u{0644}\u{0644}\u{0647}\t*\t1\n\
shlonak\t\u{0634}\u{0644}\u{0648}\u{0646}\u{0643}\tIRQ,GLF\t0\n";

const MARKS: &str = "latin\tdialects\tmark\n\
e\tLEV\tkasra\n\
e\t*\tfatha\n";

fn weights(tsv: &str) -> Vec<bool> {
    data_lines(tsv)
        .iter()
        .map(|(_, c)| c.get(2).map_or(false, |w| w.parse::<f32>().is_ok()))
        .collect()
}

fn tables() -> SeedTables {
    SeedTables::parse(MAPPINGS, PHRASES, MARKS, &weights(MAPPINGS)).unwrap()
}

#[test]
fn data_lines_skip_header_blank_and_comments() {
    let rows = data_lines(MAPPINGS);
    assert_eq!(rows.len(), 5);
    assert_eq!(rows[0].0, 3);
    assert_eq!(rows[2].0, 6);
    assert_eq!(rows[0].1, vec!["9", "\u{0635}", "0.6", "*", "*", "-"]);
}

#[test]
fn tables_parse_and_index() {
    let t = tables();
    assert_eq!(t.rules.len(), 5);
    assert_eq!(t.max_chunk_len(), 2);
    assert!(t.has_chunk(&['9']));
    assert!(!t.has_chunk(&['q']));
    assert_eq!(decode(&t.rules[1].arabic), "\u{0642}");
    assert_eq!(t.rules[1].dialects, Dialect::Mag.bit());
    assert_eq!(t.rules[4].pos, POS_I | POS_M);
    assert_eq!(t.rules[4].flags, F_VOWEL);
    assert_eq!(t.phrases.len(), 2);
    assert!(t.phrases[0].default && !t.phrases[1].default);
}

#[test]
fn named_dialect_overrides_any() {
    let t = tables();
    assert_eq!(t.resolve(&['9'], POS_M, Dialect::Mag), vec![1]);
    assert_eq!(t.resolve(&['9'], POS_M, Dialect::Lev), vec![0]);
}

#[test]
fn explicit_position_overrides_star_in_resolution() {
    let t = tables();
    assert_eq!(t.resolve(&['h'], POS_F, Dialect::Lev), vec![3]);
    assert_eq!(t.resolve(&['h'], POS_M, Dialect::Lev), vec![2]);
    assert_eq!(t.resolve(&['a', 'a'], POS_F, Dialect::Lev), Vec::<usize>::new());
}

#[test]
fn phrases_follow_likely_dialects() {
    let t = tables();
    assert_eq!(t.phrases_for("inshallah", 0), vec![0]);
    assert_eq!(t.phrases_for("shlonak", Dialect::Lev.bit()), Vec::<usize>::new());
    assert_eq!(t.phrases_for("shlonak", Dialect::Irq.bit()), vec![1]);
}

#[test]
fn vowel_marks_by_dialect_in_tables() {
    let t = tables();
    assert_eq!(t.vowel_mark("e", Dialect::Lev), Some(KASRA));
    assert_eq!(t.vowel_mark("e", Dialect::Msa), Some(FATHA));
    assert_eq!(t.vowel_mark("o", Dialect::Msa), None);
}

#[test]
fn column_parsers() {
    assert_eq!(parse_pos("*"), Ok((POS_ANY, false)));
    assert_eq!(parse_pos("IF"), Ok((POS_I | POS_F, true)));
    assert_eq!(parse_pos("IX"), Err("bad pos 'IX'".to_string()));
    assert_eq!(parse_flags("-"), Ok(0));
    assert_eq!(parse_flags(""), Ok(0));
    assert_eq!(parse_flags("GEM, ARTICLE"), Ok(F_GEM | F_ARTICLE));
    assert_eq!(parse_flags("GEM,BOLD"), Err("bad flag 'BOLD'".to_string()));
    assert_eq!(parse_latin("Ta"), vec!['\u{1}', 'a']);
}

#[test]
fn seed_errors_carry_file_and_line() {
    let bad = |m: &str| SeedTables::parse(m, PHRASES, MARKS, &weights(m)).unwrap_err();
    let head = "latin\tarabic\tweight\tpos\tdialects\tflags\n";
    assert_eq!(bad(&format!("{head}9\tx\n")), "mappings.tsv:2: expected >= 6 columns");
    assert_eq!(
        bad(&format!("{head}9\tx\t1\t*\t*\t-\n")),
        "mappings.tsv:2: non-alphabet Arabic 'x'"
    );
    assert_eq!(
        bad(&format!("{head}9\t\u{0635}\u{0635}\u{0635}\u{0635}\t1\t*\t*\t-\n")),
        "mappings.tsv:2: Arabic chunk longer than 3"
    );
    assert_eq!(
        bad(&format!("{head}abcde\t\u{0635}\t1\t*\t*\t-\n")),
        "mappings.tsv:2: Latin chunk must be 1-4 symbols"
    );
    assert_eq!(bad(&format!("{head}9\t\u{0635}\tw\tQ\t*\t-\n")), "mappings.tsv:2: bad weight");
    assert_eq!(bad(&format!("{head}9\t\u{0635}\t1\tQ\t*\t-\n")), "mappings.tsv:2: bad pos 'Q'");
    assert_eq!(
        bad(&format!("{head}9\t\u{0635}\t1\t*\tXYZ\t-\n")),
        "mappings.tsv:2: unknown dialect 'XYZ'"
    );
    assert_eq!(
        bad(&format!("{head}9\tε\t1\t*\t*\tBOLD\n")),
        "mappings.tsv:2: bad flag 'BOLD'"
    );
    let e = SeedTables::parse(MAPPINGS, "h\n# c\nk\to\n", MARKS, &weights(MAPPINGS)).unwrap_err();
    assert_eq!(e, "phrases.tsv:3: expected >= 4 columns");
    let e = SeedTables::parse(MAPPINGS, PHRASES, "h\ne\tXX\tsukun\n", &weights(MAPPINGS)).unwrap_err();
    assert_eq!(e, "vowel_marks.tsv:2: bad mark 'sukun'");
    let e = SeedTables::parse(MAPPINGS, PHRASES, "h\ne\tXX\tfatha\n", &weights(MAPPINGS)).unwrap_err();
    assert_eq!(e, "vowel_marks.tsv:2: unknown dialect 'XX'");
}

#[test]
fn flag_columns_round_trip() {
    assert_eq!(flag_names(0), "-");
    assert_eq!(flag_names(F_GEM), "GEM");
    assert_eq!(flag_names(F_VOWEL | F_ARTICLE), "VOWEL,ARTICLE");
    assert_eq!(flag_names(F_VOWEL | F_GEM | F_TANWEEN | F_ARTICLE), "VOWEL,GEM,TANWEEN,ARTICLE");
    for f in 0..=255u8 {
        assert_eq!(parse_flags(&flag_names(f)), Ok(f & 15));
    }
}

#[test]
fn latin_text_round_trips() {
    assert_eq!(latin_char('\u{1}'), 'T');
    assert_eq!(latin_char('x'), 'x');
    let chunk = vec!['\u{2}', 'h', '\u{5}'];
    assert_eq!(latin_text(&chunk), "ShH");
    assert_eq!(parse_latin(&latin_text(&chunk)), chunk);
}
