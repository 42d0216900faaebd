use type3arabi::data::kind;
use type3arabi::data::{crc32, DataError, DataView, Writer};

fn minimal() -> Vec<u8> {
    let mut w = Writer::new(2_026_092_201);
    for k in kind::REQUIRED {
        w.add(k, vec![1, 2, 3]);
    }
    w.finish()
}

#[test]
fn roundtrip() {
    let bytes = minimal();
    let v = DataView::parse(&bytes).unwrap();
    assert_eq!(v.header().data_version, 2_026_092_201);
    assert_eq!(v.section(kind::TRIE), Some(&[1u8, 2, 3][..]));
    assert_eq!(v.section(kind::BIGR), None);
}

#[test]
fn crc_known_value() {
    assert_eq!(crc32(b"123456789"), 0xCBF4_3926);
}

#[test]
fn rejects_corruption() {
    let good = minimal();
    let mut b = good.clone();
    b[0] = b'X';
    assert_eq!(DataView::parse(&b).unwrap_err(), DataError::BadMagic);
    let mut b = good.clone();
    b[20] ^= 1;
    assert_eq!(DataView::parse(&b).unwrap_err(), DataError::HeaderCrc);
    let mut b = good.clone();
    b.push(0);
    assert!(matches!(
        DataView::parse(&b).unwrap_err(),
        DataError::FileLen { .. }
    ));
    assert_eq!(
        DataView::parse(&good[..10]).unwrap_err(),
        DataError::TooShort
    );
}

#[test]
fn never_panics_on_truncation_or_bit_flips() {
    let good = minimal();
    for n in 0..good.len() {
        let _ = DataView::parse(&good[..n]);
    }
    for i in 0..good.len() {
        for bit in 0..8 {
            let mut b = good.clone();
            b[i] ^= 1 << bit;
            let _ = DataView::parse(&b);
        }
    }
}

#[test]
fn sections_come_back_in_the_order_they_were_added() {
    let bytes = minimal();
    let v = DataView::parse(&bytes).unwrap();
    let kinds: Vec<[u8; 4]> = v.sections().iter().map(|s| s.kind).collect();
    assert_eq!(kinds, kind::REQUIRED.to_vec());
    assert_eq!(v.header().section_count, 11);
}

#[test]
fn missing_required_section_is_named() {
    let mut w = Writer::new(1);
    for k in kind::REQUIRED.iter().skip(1) {
        w.add(*k, vec![9]);
    }
    let bytes = w.finish();
    assert_eq!(
        DataView::parse(&bytes).unwrap_err(),
        DataError::MissingSection(kind::ALPH)
    );
}

#[test]
fn crc_of_nothing_is_zero() {
    assert_eq!(crc32(b""), 0);
}
