use type3arabi::journal::{crc16_ccitt, JournalRecord, KIND_CHOOSE, KIND_NEGATIVE, KIND_WIPE};
use type3arabi::learning_file::{decode, effective_records, encode};

#[test]
fn roundtrip_record() {
    let rec = JournalRecord::new(KIND_CHOOSE, 1727049600, "7abibi", "حبيبي").unwrap();
    let bytes = rec.to_bytes();
    let parsed = JournalRecord::from_bytes(&bytes).unwrap();
    assert_eq!(rec, parsed);
    assert_eq!(parsed.latin_str(), Some("7abibi"));
    assert_eq!(parsed.arabic_str(), Some("حبيبي"));
}

#[test]
fn detects_crc_corruption() {
    let rec = JournalRecord::new(KIND_CHOOSE, 1727049600, "7abibi", "حبيبي").unwrap();
    let mut bytes = rec.to_bytes();
    bytes[20] ^= 0xFF;
    assert!(JournalRecord::from_bytes(&bytes).is_none());
}

#[test]
fn rejects_invalid_magic_or_version() {
    let rec = JournalRecord::new(KIND_CHOOSE, 1727049600, "7abibi", "حبيبي").unwrap();
    let mut bytes = rec.to_bytes();
    bytes[0] = 0x00;
    assert!(JournalRecord::from_bytes(&bytes).is_none());
}

#[test]
fn too_long_texts_are_refused() {
    let long = "a".repeat(40);
    assert!(JournalRecord::new(KIND_CHOOSE, 0, &long, "ب").is_none());
    assert!(JournalRecord::new(KIND_CHOOSE, 0, "b", "ب").is_some());
}

#[test]
fn crc16_known_value() {
    assert_eq!(crc16_ccitt(b"123456789"), 0x29B1);
}

fn rec(kind: u8, l: &str, a: &str) -> JournalRecord {
    JournalRecord::new(kind, 1_700_000_000, l, a).unwrap()
}

#[test]
fn roundtrip_with_and_without_settings() {
    let rs = vec![
        rec(KIND_CHOOSE, "7abibi", "حبيبي"),
        rec(KIND_NEGATIVE, "hello", "هلو"),
    ];
    let f = decode(&encode(&rs, Some("[learning]\nenabled = true\n"))).unwrap();
    assert_eq!(f.records, rs);
    assert_eq!(f.settings.as_deref(), Some("[learning]\nenabled = true\n"));
    let f = decode(&encode(&rs, None)).unwrap();
    assert_eq!(f.records.len(), 2);
    assert!(f.settings.is_none());
}

#[test]
fn history_starts_after_the_last_wipe() {
    let mut j = Vec::new();
    for r in [
        rec(KIND_CHOOSE, "a", "ا"),
        rec(KIND_WIPE, "", ""),
        rec(KIND_CHOOSE, "b", "ب"),
    ] {
        j.extend_from_slice(&r.to_bytes());
    }
    j.extend_from_slice(&[0u8; 40]);
    let e = effective_records(&j);
    assert_eq!(e.len(), 1);
    assert_eq!(e[0].latin_str(), Some("b"));
}

#[test]
fn rejects_foreign_truncated_and_corrupt_files() {
    assert!(decode(b"PK\x03\x04 not ours at all").is_err());
    let mut good = encode(&[rec(KIND_CHOOSE, "salam", "سلام")], None);
    assert!(decode(&good[..good.len() - 2]).is_err());
    good[16 + 20] ^= 0xFF;
    assert_eq!(decode(&good).unwrap().records.len(), 0);
    let f = decode(&encode(&[rec(KIND_WIPE, "", "")], None)).unwrap();
    assert!(f.records.is_empty());
}
