//! Journal record format and serialization for the user store.
//!
//! Fixed 128-byte binary record layout:
//!   magic      : u16 = 0x5433 ('T3')
//!   ver        : u8  = 1
//!   kind       : u8  (1 Choose, 2 Negative, 3 AddWord, 4 DeleteWord, 5 Dialect, 6 Wipe)
//!   ts         : u32 (Unix timestamp seconds)
//!   latin_len  : u8  (≤ 32)
//!   arabic_len : u8  (≤ 84)
//!   latin      : [u8; 32] (UTF-8, ASCII normalized)
//!   arabic     : [u8; 84] (UTF-8 base Arabic text)
//!   crc16      : u16 (CRC-16/CCITT over bytes 0..126)
use vstd::prelude::*;
use vstd::utf8::{decode_utf8, encode_utf8, valid_utf8};
use crate::bytes::{bytes16, bytes32, le16, le32, push_u16, push_u32, push_all, u16_at, u32_at};

verus! {

pub const JOURNAL_MAGIC: u16 = 0x5433;
pub const JOURNAL_VERSION: u8 = 1;
pub const RECORD_SIZE: usize = 128;

pub const KIND_CHOOSE: u8 = 1;
pub const KIND_NEGATIVE: u8 = 2;
pub const KIND_ADD_WORD: u8 = 3;
pub const KIND_DELETE_WORD: u8 = 4;
pub const KIND_DIALECT: u8 = 5;
pub const KIND_WIPE: u8 = 6;

#[derive(Clone, Copy, Debug, PartialEq, Eq)]
pub struct JournalRecord {
    pub magic: u16,
    pub ver: u8,
    pub kind: u8,
    pub ts: u32,
    pub latin_len: u8,
    pub arabic_len: u8,
    pub latin: [u8; 32],
    pub arabic: [u8; 84],
    pub crc16: u16,
}

// ---------------------------------------------------------------------------------------------
// CRC-16/CCITT (poly 0x1021, init 0xFFFF).

pub open spec fn crc16_step(crc: u16, b: u8) -> u16 {
    let x0: u16 = ((crc >> 8u16) ^ (b as u16)) & 0xFFu16;
    let x: u16 = x0 ^ (x0 >> 4u16);
    ((crc << 8u16) ^ (x << 12u16) ^ (x << 5u16) ^ x) as u16
}

pub open spec fn spec_crc16(bytes: Seq<u8>) -> u16
    decreases bytes.len(),
{
    if bytes.len() == 0 {
        0xFFFF
    } else {
        crc16_step(spec_crc16(bytes.drop_last()), bytes.last())
    }
}

/// CRC-16/CCITT (poly 0x1021, init 0xFFFF).
pub fn crc16_ccitt(bytes: &[u8]) -> (r: u16)
    ensures
        r == spec_crc16(bytes@),
{
    let mut crc: u16 = 0xFFFF;
    let mut i: usize = 0;
    while i < bytes.len()
        invariant
            i <= bytes@.len(),
            crc == spec_crc16(bytes@.take(i as int)),
        decreases bytes@.len() - i,
    {
        assert(bytes@.take(i + 1).drop_last() =~= bytes@.take(i as int));
        let b = bytes[i];
        let x0: u16 = ((crc >> 8u16) ^ (b as u16)) & 0xFFu16;
        let x: u16 = x0 ^ (x0 >> 4u16);
        crc = ((crc << 8u16) ^ (x << 12u16) ^ (x << 5u16) ^ x) as u16;
        i += 1;
    }
    assert(bytes@.take(bytes@.len() as int) =~= bytes@);
    crc
}

// ---------------------------------------------------------------------------------------------
// The byte image.

/// The 128 bytes of record `r`.
pub open spec fn record_bytes(r: JournalRecord) -> Seq<u8> {
    bytes16(r.magic as int) + seq![r.ver, r.kind] + bytes32(r.ts as int) + seq![
        r.latin_len,
        r.arabic_len,
    ] + r.latin@ + r.arabic@ + bytes16(r.crc16 as int)
}

/// The record that bytes `b` (of length 128) hold, if its header, lengths and CRC check out.
pub open spec fn spec_from_bytes(b: Seq<u8>) -> Option<JournalRecord> {
    let magic = le16(b, 0);
    let crc = le16(b, 126);
    if magic != JOURNAL_MAGIC || b[2] != JOURNAL_VERSION || b[8] > 32 || b[9] > 84 || crc
        != spec_crc16(b.take(126)) {
        None
    } else {
        Some(
            JournalRecord {
                magic: magic as u16,
                ver: b[2],
                kind: b[3],
                ts: le32(b, 4) as u32,
                latin_len: b[8],
                arabic_len: b[9],
                latin: arr32(b.subrange(10, 42)),
                arabic: arr84(b.subrange(42, 126)),
                crc16: crc as u16,
            },
        )
    }
}

/// The 32-byte array holding `s`.
pub open spec fn arr32(s: Seq<u8>) -> [u8; 32] {
    choose|a: [u8; 32]| a@ == s
}

/// The 84-byte array holding `s`.
pub open spec fn arr84(s: Seq<u8>) -> [u8; 84] {
    choose|a: [u8; 84]| a@ == s
}

/// A record as `JournalRecord::new` makes it: right header, text lengths in bounds, and a CRC
/// that matches its first 126 bytes.
pub open spec fn record_ok(r: JournalRecord) -> bool {
    &&& r.magic == JOURNAL_MAGIC
    &&& r.ver == JOURNAL_VERSION
    &&& r.latin_len <= 32
    &&& r.arabic_len <= 84
    &&& r.crc16 == spec_crc16(record_bytes(r).take(126))
}

/// `text` zero-padded to `n` bytes.
pub open spec fn padded(text: Seq<u8>, n: nat) -> Seq<u8> {
    text + Seq::new((n - text.len()) as nat, |i: int| 0u8)
}

/// The record `JournalRecord::new` makes from these values.
pub open spec fn made_from(
    r: JournalRecord,
    kind: u8,
    ts: u32,
    latin: Seq<char>,
    arabic: Seq<char>,
) -> bool {
    &&& record_ok(r)
    &&& r.kind == kind
    &&& r.ts == ts
    &&& r.latin_len == encode_utf8(latin).len()
    &&& r.arabic_len == encode_utf8(arabic).len()
    &&& r.latin@ == padded(encode_utf8(latin), 32)
    &&& r.arabic@ == padded(encode_utf8(arabic), 84)
}

/// The text held in the first `len` bytes of `field`, if they are valid UTF-8.
pub open spec fn field_text(field: Seq<u8>, len: int) -> Option<Seq<char>> {
    if valid_utf8(field.take(len)) {
        Some(decode_utf8(field.take(len)))
    } else {
        None
    }
}

/// `std::str::from_utf8`: the text whose UTF-8 bytes are `b`, when `b` is valid UTF-8.
#[verifier::external_body]
fn utf8_text(b: &[u8]) -> (r: Option<&str>)
    ensures
        r is Some <==> valid_utf8(b@),
        r matches Some(s) ==> encode_utf8(s@) == b@,
{
    std::str::from_utf8(b).ok()
}

/// The text held in `b`, if it is valid UTF-8.
pub fn text_of(b: &[u8]) -> (r: Option<&str>)
    ensures
        r is Some <==> valid_utf8(b@),
        r matches Some(s) ==> s@ == decode_utf8(b@),
{
    let r = utf8_text(b);
    proof {
        if let Some(s) = r {
            vstd::utf8::encode_utf8_decode_utf8(s@);
        }
    }
    r
}

fn copy_into_32(src: &[u8]) -> (a: [u8; 32])
    requires
        src@.len() <= 32,
    ensures
        a@ == padded(src@, 32),
{
    let mut a = [0u8; 32];
    let mut i: usize = 0;
    while i < src.len()
        invariant
            i <= src@.len() <= 32,
            forall|j: int| 0 <= j < i ==> a@[j] == src@[j],
            forall|j: int| i <= j < 32 ==> a@[j] == 0,
        decreases src@.len() - i,
    {
        a[i] = src[i];
        i += 1;
    }
    assert(a@ =~= padded(src@, 32));
    a
}

fn copy_into_84(src: &[u8]) -> (a: [u8; 84])
    requires
        src@.len() <= 84,
    ensures
        a@ == padded(src@, 84),
{
    let mut a = [0u8; 84];
    let mut i: usize = 0;
    while i < src.len()
        invariant
            i <= src@.len() <= 84,
            forall|j: int| 0 <= j < i ==> a@[j] == src@[j],
            forall|j: int| i <= j < 84 ==> a@[j] == 0,
        decreases src@.len() - i,
    {
        a[i] = src[i];
        i += 1;
    }
    assert(a@ =~= padded(src@, 84));
    a
}

fn array_of_32(b: &[u8], o: usize) -> (a: [u8; 32])
    requires
        o + 32 <= b@.len(),
    ensures
        a@ == b@.subrange(o as int, o + 32),
{
    let _n = b.len();
    let mut a = [0u8; 32];
    let mut i: usize = 0;
    while i < 32
        invariant
            i <= 32,
            o + 32 <= b@.len(),
            b@.len() <= usize::MAX,
            forall|j: int| 0 <= j < i ==> a@[j] == b@[o + j],
        decreases 32 - i,
    {
        a[i] = b[o + i];
        i += 1;
    }
    assert(a@ =~= b@.subrange(o as int, o + 32));
    a
}

fn array_of_84(b: &[u8], o: usize) -> (a: [u8; 84])
    requires
        o + 84 <= b@.len(),
    ensures
        a@ == b@.subrange(o as int, o + 84),
{
    let _n = b.len();
    let mut a = [0u8; 84];
    let mut i: usize = 0;
    while i < 84
        invariant
            i <= 84,
            o + 84 <= b@.len(),
            b@.len() <= usize::MAX,
            forall|j: int| 0 <= j < i ==> a@[j] == b@[o + j],
        decreases 84 - i,
    {
        a[i] = b[o + i];
        i += 1;
    }
    assert(a@ =~= b@.subrange(o as int, o + 84));
    a
}

impl JournalRecord {
    /// A record of `kind` at `ts` for the pair (`latin`, `arabic`); `None` when a text does not
    /// fit its field (32 and 84 UTF-8 bytes).
    pub fn new(kind: u8, ts: u32, latin: &str, arabic: &str) -> (r: Option<Self>)
        ensures
            r is Some <==> (encode_utf8(latin@).len() <= 32 && encode_utf8(arabic@).len() <= 84),
            r matches Some(rec) ==> made_from(rec, kind, ts, latin@, arabic@),
    {
        let l_bytes = latin.as_bytes();
        let a_bytes = arabic.as_bytes();
        if l_bytes.len() > 32 || a_bytes.len() > 84 {
            return None;
        }
        let lat_arr = copy_into_32(l_bytes);
        let ar_arr = copy_into_84(a_bytes);
        let mut rec = JournalRecord {
            magic: JOURNAL_MAGIC,
            ver: JOURNAL_VERSION,
            kind,
            ts,
            latin_len: l_bytes.len() as u8,
            arabic_len: a_bytes.len() as u8,
            latin: lat_arr,
            arabic: ar_arr,
            crc16: 0,
        };
        // CRC over the first 126 bytes
        let raw = rec.to_vec();
        let crc = crc16_ccitt(&raw.as_slice()[0..126]);
        proof {
            assert(raw@.subrange(0, 126) == record_bytes(rec).take(126));
        }
        let ghost first = record_bytes(rec).take(126);
        rec.crc16 = crc;
        assert(record_bytes(rec).take(126) =~= first);
        Some(rec)
    }

    fn to_vec(&self) -> (v: Vec<u8>)
        ensures
            v@ == record_bytes(*self),
            v@.len() == 128,
    {
        let mut v: Vec<u8> = Vec::new();
        push_u16(&mut v, self.magic);
        v.push(self.ver);
        v.push(self.kind);
        push_u32(&mut v, self.ts);
        v.push(self.latin_len);
        v.push(self.arabic_len);
        push_all(&mut v, self.latin.as_slice());
        push_all(&mut v, self.arabic.as_slice());
        push_u16(&mut v, self.crc16);
        assert(v@ =~= record_bytes(*self));
        v
    }

    /// The record's 128-byte image.
    pub fn to_bytes(&self) -> (buf: [u8; 128])
        ensures
            buf@ == record_bytes(*self),
    {
        let v = self.to_vec();
        let mut buf = [0u8; 128];
        let mut i: usize = 0;
        while i < 128
            invariant
                i <= 128,
                v@.len() == 128,
                forall|j: int| 0 <= j < i ==> buf@[j] == v@[j],
            decreases 128 - i,
        {
            buf[i] = v[i];
            i += 1;
        }
        assert(buf@ =~= v@);
        buf
    }

    /// The record in `buf`, if its magic, version, text lengths and CRC check out.
    pub fn from_bytes(buf: &[u8; 128]) -> (r: Option<Self>)
        ensures
            r == spec_from_bytes(buf@),
    {
        let b = buf.as_slice();
        let magic = u16_at(b, 0);
        let ver = b[2];
        if magic != JOURNAL_MAGIC || ver != JOURNAL_VERSION {
            return None;
        }
        let kind = b[3];
        let ts = u32_at(b, 4);
        let latin_len = b[8];
        let arabic_len = b[9];
        if latin_len > 32 || arabic_len > 84 {
            return None;
        }
        let latin = array_of_32(b, 10);
        let arabic = array_of_84(b, 42);
        let crc16 = u16_at(b, 126);
        let expected_crc = crc16_ccitt(&b[0..126]);
        assert(b@.subrange(0, 126) =~= buf@.take(126));
        if crc16 != expected_crc {
            return None;
        }
        let r = JournalRecord { magic, ver, kind, ts, latin_len, arabic_len, latin, arabic, crc16 };
        proof {
            let s = spec_from_bytes(buf@)->0;
            assert(s.latin@ == latin@);
            assert(s.arabic@ == arabic@);
            assert(s.latin =~= latin);
            assert(s.arabic =~= arabic);
        }
        Some(r)
    }

    /// The Latin text, if its bytes are valid UTF-8.
    pub fn latin_str(&self) -> (r: Option<&str>)
        requires
            self.latin_len <= 32,
        ensures
            r is Some == field_text(self.latin@, self.latin_len as int) is Some,
            r matches Some(s) ==> field_text(self.latin@, self.latin_len as int) == Some(s@),
    {
        let n = self.latin_len as usize;
        let b = self.latin.as_slice();
        assert(b@.subrange(0, n as int) =~= self.latin@.take(n as int));
        text_of(&b[0..n])
    }

    /// The Arabic text, if its bytes are valid UTF-8.
    pub fn arabic_str(&self) -> (r: Option<&str>)
        requires
            self.arabic_len <= 84,
        ensures
            r is Some == field_text(self.arabic@, self.arabic_len as int) is Some,
            r matches Some(s) ==> field_text(self.arabic@, self.arabic_len as int) == Some(s@),
    {
        let n = self.arabic_len as usize;
        let b = self.arabic.as_slice();
        assert(b@.subrange(0, n as int) =~= self.arabic@.take(n as int));
        text_of(&b[0..n])
    }
}

// ---------------------------------------------------------------------------------------------
// Laws.

/// Reading back a written record gives the same record.
pub proof fn law_record_roundtrip(r: JournalRecord)
    requires
        record_ok(r),
    ensures
        spec_from_bytes(record_bytes(r)) == Some(r),
{
    let b = record_bytes(r);
    assert(b.subrange(0, 2) =~= bytes16(r.magic as int));
    crate::bytes::lemma_le16_of_bytes(b, 0, r.magic as int);
    assert(b.subrange(4, 8) =~= bytes32(r.ts as int));
    crate::bytes::lemma_le32_of_bytes(b, 4, r.ts as int);
    assert(b.subrange(126, 128) =~= bytes16(r.crc16 as int));
    crate::bytes::lemma_le16_of_bytes(b, 126, r.crc16 as int);
    assert(b.subrange(10, 42) =~= r.latin@);
    assert(b.subrange(42, 126) =~= r.arabic@);
    let s = spec_from_bytes(b)->0;
    assert(s.latin =~= r.latin);
    assert(s.arabic =~= r.arabic);
}

/// A record made from a pair of texts gives both texts back, and survives the byte image.
pub proof fn law_record_keeps_texts(
    r: JournalRecord,
    kind: u8,
    ts: u32,
    latin: Seq<char>,
    arabic: Seq<char>,
)
    requires
        made_from(r, kind, ts, latin, arabic),
    ensures
        field_text(r.latin@, r.latin_len as int) == Some(latin),
        field_text(r.arabic@, r.arabic_len as int) == Some(arabic),
        spec_from_bytes(record_bytes(r)) == Some(r),
{
    assert(r.latin@.take(r.latin_len as int) =~= encode_utf8(latin));
    assert(r.arabic@.take(r.arabic_len as int) =~= encode_utf8(arabic));
    vstd::utf8::encode_utf8_valid_utf8(latin);
    vstd::utf8::encode_utf8_valid_utf8(arabic);
    vstd::utf8::encode_utf8_decode_utf8(latin);
    vstd::utf8::encode_utf8_decode_utf8(arabic);
    law_record_roundtrip(r);
}

} // verus!
