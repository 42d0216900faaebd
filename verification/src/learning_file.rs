//! Learning export/import file (`.t3learn`): moves what was learned — and, optionally, the
//! settings — to another PC or Windows account.
//!
//! Layout (little-endian):
//!   magic    : [u8; 8] = b"T3LEARN\0"
//!   version  : u32     = 1
//!   count    : u32     number of journal records
//!   records  : count × 128-byte journal records, CHOOSE / NEGATIVE only
//!   settings : u32 length + UTF-8 config.toml (length 0 = no settings)
//!
//! The records are the journal's own format, so an import is replayed exactly like a commit.
use vstd::prelude::*;
use vstd::utf8::{decode_utf8, encode_utf8, valid_utf8};
use crate::bytes::{bytes32, le32, push_all, push_u32, u32_at};
use crate::journal::{
    field_text, record_bytes, record_ok, spec_from_bytes, text_of, JournalRecord, KIND_CHOOSE,
    KIND_NEGATIVE, KIND_WIPE,
};
use crate::text::{decimal, push_decimal, push_str};

verus! {

pub const MAGIC: [u8; 8] = [0x54, 0x33, 0x4C, 0x45, 0x41, 0x52, 0x4E, 0x00];
pub const VERSION: u32 = 1;
/// The file name extension of learning files.
pub const EXTENSION: &'static str = "t3learn";
/// Upper bounds that keep a hostile or corrupt file from exhausting memory.
pub const MAX_RECORDS: usize = 2_000_000;
pub const MAX_SETTINGS_BYTES: usize = 262_144;

/// A decoded learning file.
#[derive(Debug)]
pub struct LearningFile {
    pub records: Vec<JournalRecord>,
    pub settings: Option<String>,
}

// ---------------------------------------------------------------------------------------------
// Journal history.

/// Chunk `k` (128 bytes) of `b`.
pub open spec fn chunk(b: Seq<u8>, k: int) -> Seq<u8> {
    b.subrange(128 * k, 128 * k + 128)
}

/// The learning history in the first `k` chunks: CHOOSE / NEGATIVE records after the last WIPE,
/// in order; chunks that hold no valid record are skipped.
pub open spec fn history(b: Seq<u8>, k: int) -> Seq<JournalRecord>
    decreases k,
{
    if k <= 0 {
        Seq::empty()
    } else {
        let prev = history(b, k - 1);
        match spec_from_bytes(chunk(b, k - 1)) {
            None => prev,
            Some(r) => if r.kind == KIND_WIPE {
                Seq::empty()
            } else if r.kind == KIND_CHOOSE || r.kind == KIND_NEGATIVE {
                prev.push(r)
            } else {
                prev
            },
        }
    }
}

fn chunk_at(b: &[u8], o: usize) -> (a: [u8; 128])
    requires
        o + 128 <= b@.len(),
    ensures
        a@ == b@.subrange(o as int, o + 128),
{
    let _n = b.len();
    let mut a = [0u8; 128];
    let mut i: usize = 0;
    while i < 128
        invariant
            i <= 128,
            o + 128 <= b@.len(),
            b@.len() <= usize::MAX,
            forall|j: int| 0 <= j < i ==> a@[j] == b@[o + j],
        decreases 128 - i,
    {
        a[i] = b[o + i];
        i += 1;
    }
    assert(a@ =~= b@.subrange(o as int, o + 128));
    a
}

/// The learning history that matters: CHOOSE / NEGATIVE records after the last WIPE, in order.
/// Records with a bad magic or CRC (a torn write) are skipped, as journal replay does.
pub fn effective_records(journal: &[u8]) -> (r: Vec<JournalRecord>)
    ensures
        r@ == history(journal@, (journal@.len() / 128) as int),
{
    let len = journal.len();
    let n = len / 128;
    assert(128 * n <= len) by (nonlinear_arith)
        requires
            n == len / 128,
    ;
    let mut out: Vec<JournalRecord> = Vec::new();
    let mut k: usize = 0;
    while k < n
        invariant
            k <= n,
            128 * n <= len,
            len == journal@.len(),
            out@ == history(journal@, k as int),
        decreases n - k,
    {
        let buf = chunk_at(journal, 128 * k);
        match JournalRecord::from_bytes(&buf) {
            None => {},
            Some(rec) => {
                if rec.kind == KIND_WIPE {
                    out = Vec::new();
                } else if rec.kind == KIND_CHOOSE || rec.kind == KIND_NEGATIVE {
                    out.push(rec);
                }
            },
        }
        k += 1;
    }
    out
}

// ---------------------------------------------------------------------------------------------
// Writing.

/// The byte images of `rs`, one after the other.
pub open spec fn records_image(rs: Seq<JournalRecord>) -> Seq<u8>
    decreases rs.len(),
{
    if rs.len() == 0 {
        Seq::empty()
    } else {
        records_image(rs.drop_last()) + record_bytes(rs.last())
    }
}

/// The file for records `rs` and settings bytes `s`.
pub open spec fn file_bytes(rs: Seq<JournalRecord>, s: Seq<u8>) -> Seq<u8> {
    MAGIC@ + bytes32(VERSION as int) + bytes32((rs.len() as u32) as int) + records_image(rs)
        + bytes32((s.len() as u32) as int) + s
}

/// The settings text as stored: its UTF-8 bytes, none when absent.
pub open spec fn settings_bytes(settings: Option<Seq<char>>) -> Seq<u8> {
    match settings {
        Some(s) => encode_utf8(s),
        None => Seq::empty(),
    }
}

/// Serialize records (and optional settings) into a `.t3learn` file.
pub fn encode(records: &[JournalRecord], settings: Option<&str>) -> (out: Vec<u8>)
    ensures
        out@ == file_bytes(
            records@,
            settings_bytes(
                match settings {
                    Some(s) => Some(s@),
                    None => None,
                },
            ),
        ),
{
    let s: &[u8] = match settings {
        Some(t) => t.as_bytes(),
        None => {
            let e: &[u8] = &[];
            assert(e@ =~= Seq::<u8>::empty());
            e
        },
    };
    let mut out: Vec<u8> = Vec::new();
    push_all(&mut out, MAGIC.as_slice());
    push_u32(&mut out, VERSION);
    push_u32(&mut out, records.len() as u32);
    let ghost head = out@;
    let mut i: usize = 0;
    while i < records.len()
        invariant
            i <= records@.len(),
            out@ == head + records_image(records@.take(i as int)),
        decreases records@.len() - i,
    {
        assert(records@.take(i + 1).drop_last() =~= records@.take(i as int));
        let bytes = records[i].to_bytes();
        push_all(&mut out, bytes.as_slice());
        i += 1;
    }
    assert(records@.take(records@.len() as int) =~= records@);
    push_u32(&mut out, s.len() as u32);
    push_all(&mut out, s);
    assert(out@ =~= file_bytes(
        records@,
        settings_bytes(
            match settings {
                Some(t) => Some(t@),
                None => None,
            },
        ),
    ));
    out
}

// ---------------------------------------------------------------------------------------------
// Reading.

pub open spec fn err_not_ours() -> Seq<char> {
    "not a Type3arabi learning file"@
}

pub open spec fn err_version(v: nat) -> Seq<char> {
    "unsupported learning file version "@ + decimal(v)
}

pub open spec fn err_too_large() -> Seq<char> {
    "the file is too large"@
}

pub open spec fn err_truncated() -> Seq<char> {
    "the file is truncated"@
}

pub open spec fn err_settings_too_large() -> Seq<char> {
    "the settings in the file are too large"@
}

pub open spec fn err_settings_text() -> Seq<char> {
    "the settings in the file are not valid text"@
}

/// A record worth importing: CHOOSE / NEGATIVE with both texts valid UTF-8.
pub open spec fn importable(r: JournalRecord) -> bool {
    &&& (r.kind == KIND_CHOOSE || r.kind == KIND_NEGATIVE)
    &&& field_text(r.latin@, r.latin_len as int) is Some
    &&& field_text(r.arabic@, r.arabic_len as int) is Some
}

/// The importable records among the first `k` chunks of `body`.
pub open spec fn kept(body: Seq<u8>, k: int) -> Seq<JournalRecord>
    decreases k,
{
    if k <= 0 {
        Seq::empty()
    } else {
        let prev = kept(body, k - 1);
        match spec_from_bytes(chunk(body, k - 1)) {
            Some(r) => if importable(r) {
                prev.push(r)
            } else {
                prev
            },
            None => prev,
        }
    }
}

/// What a learning file holds: its records and settings, or why it was refused.
pub open spec fn spec_decode(b: Seq<u8>) -> Result<(Seq<JournalRecord>, Option<Seq<char>>), Seq<char>> {
    if b.len() < 20 || b.take(8) != MAGIC@ {
        Err(err_not_ours())
    } else if le32(b, 8) != VERSION {
        Err(err_version(le32(b, 8) as nat))
    } else if le32(b, 12) > MAX_RECORDS {
        Err(err_too_large())
    } else {
        let count = le32(b, 12);
        let end = 16 + 128 * count;
        if end > b.len() || end + 4 > b.len() {
            Err(err_truncated())
        } else {
            let len = le32(b, end);
            if len > MAX_SETTINGS_BYTES {
                Err(err_settings_too_large())
            } else if end + 4 + len > b.len() {
                Err(err_truncated())
            } else {
                let recs = kept(b.subrange(16, end), count);
                let raw = b.subrange(end + 4, end + 4 + len);
                if len == 0 {
                    Ok((recs, None))
                } else if !valid_utf8(raw) {
                    Err(err_settings_text())
                } else {
                    Ok((recs, Some(decode_utf8(raw))))
                }
            }
        }
    }
}

fn error(msg: &str) -> (r: Result<LearningFile, String>)
    ensures
        r matches Err(e) && e@ == msg@,
{
    Err(msg.to_owned())
}

/// Parse and validate a `.t3learn` file. Only CHOOSE / NEGATIVE records with a valid CRC and
/// valid texts are kept.
pub fn decode(bytes: &[u8]) -> (r: Result<LearningFile, String>)
    ensures
        match r {
            Ok(f) => spec_decode(bytes@) == Ok::<(Seq<JournalRecord>, Option<Seq<char>>), Seq<char>>(
                (
                    f.records@,
                    match f.settings {
                        Some(s) => Some(s@),
                        None => None,
                    },
                ),
            ),
            Err(e) => spec_decode(bytes@) == Err::<(Seq<JournalRecord>, Option<Seq<char>>), Seq<char>>(
                e@,
            ),
        },
{
    let blen = bytes.len();
    let mut magic_ok = blen >= 20;
    if magic_ok {
        let mut i: usize = 0;
        while i < 8
            invariant
                i <= 8,
                blen == bytes@.len(),
                blen >= 20,
                magic_ok == (forall|j: int| 0 <= j < i ==> bytes@[j] == MAGIC@[j]),
            decreases 8 - i,
        {
            if bytes[i] != MAGIC[i] {
                magic_ok = false;
            }
            i += 1;
        }
        assert(magic_ok == (bytes@.take(8) =~= MAGIC@));
    }
    if !magic_ok {
        return error("not a Type3arabi learning file");
    }
    let version = u32_at(bytes, 8);
    if version != VERSION {
        let mut e = String::new();
        push_str(&mut e, "unsupported learning file version ");
        push_decimal(&mut e, version as u64);
        return Err(e);
    }
    let count32 = u32_at(bytes, 12);
    if count32 as usize > MAX_RECORDS {
        return error("the file is too large");
    }
    let count = count32 as usize;
    let start: usize = 16;
    let end = start + count * 128;
    if end > blen || end + 4 > blen {
        return error("the file is truncated");
    }
    let mut records: Vec<JournalRecord> = Vec::new();
    let mut k: usize = 0;
    let ghost body = bytes@.subrange(16, end as int);
    while k < count
        invariant
            k <= count,
            count <= MAX_RECORDS,
            end == 16 + 128 * count,
            end + 4 <= blen,
            blen == bytes@.len(),
            body == bytes@.subrange(16, end as int),
            records@ == kept(body, k as int),
        decreases count - k,
    {
        let buf = chunk_at(bytes, 16 + 128 * k);
        assert(buf@ =~= chunk(body, k as int));
        if let Some(rec) = JournalRecord::from_bytes(&buf) {
            if (rec.kind == KIND_CHOOSE || rec.kind == KIND_NEGATIVE) && rec.latin_str().is_some()
                && rec.arabic_str().is_some() {
                records.push(rec);
            }
        }
        k += 1;
    }
    let len32 = u32_at(bytes, end);
    if len32 as usize > MAX_SETTINGS_BYTES {
        return error("the settings in the file are too large");
    }
    let len = len32 as usize;
    if end + 4 + len > blen {
        return error("the file is truncated");
    }
    let raw = vstd::slice::slice_subrange(bytes, end + 4, end + 4 + len);
    let settings = if len == 0 {
        None
    } else {
        match text_of(raw) {
            None => {
                return error("the settings in the file are not valid text");
            },
            Some(t) => Some(t.to_owned()),
        }
    };
    Ok(LearningFile { records, settings })
}

// ---------------------------------------------------------------------------------------------
// The round trip.

proof fn lemma_records_image_len(rs: Seq<JournalRecord>)
    ensures
        records_image(rs).len() == 128 * rs.len(),
    decreases rs.len(),
{
    if rs.len() > 0 {
        lemma_records_image_len(rs.drop_last());
    }
}

proof fn lemma_records_image_chunk(rs: Seq<JournalRecord>, k: int)
    requires
        0 <= k < rs.len(),
    ensures
        chunk(records_image(rs), k) == record_bytes(rs[k]),
    decreases rs.len(),
{
    lemma_records_image_len(rs.drop_last());
    let img = records_image(rs);
    let p = records_image(rs.drop_last());
    if k < rs.len() - 1 {
        lemma_records_image_chunk(rs.drop_last(), k);
        assert(chunk(img, k) =~= chunk(p, k));
    } else {
        assert(chunk(img, k) =~= record_bytes(rs.last()));
    }
}

proof fn lemma_kept_all(rs: Seq<JournalRecord>, k: int)
    requires
        0 <= k <= rs.len(),
        forall|i: int| 0 <= i < rs.len() ==> record_ok(#[trigger] rs[i]) && importable(rs[i]),
    ensures
        kept(records_image(rs), k) == rs.take(k),
    decreases k,
{
    if k > 0 {
        lemma_kept_all(rs, k - 1);
        lemma_records_image_chunk(rs, k - 1);
        crate::journal::law_record_roundtrip(rs[k - 1]);
        assert(rs.take(k) =~= rs.take(k - 1).push(rs[k - 1]));
    }
}

/// Importing an exported file gives back the same records and the same settings (settings that
/// are empty are no settings). Holds for records a journal can hold and import (CHOOSE /
/// NEGATIVE with valid texts and CRC) within the file's bounds.
#[verifier::rlimit(50)]
pub proof fn law_decode_encode(rs: Seq<JournalRecord>, settings: Option<Seq<char>>)
    requires
        rs.len() <= MAX_RECORDS,
        forall|i: int| 0 <= i < rs.len() ==> record_ok(#[trigger] rs[i]) && importable(rs[i]),
        settings_bytes(settings).len() <= MAX_SETTINGS_BYTES,
    ensures
        spec_decode(file_bytes(rs, settings_bytes(settings))) == Ok::<(Seq<JournalRecord>, Option<Seq<char>>), Seq<char>>(
            (
                rs,
                if settings_bytes(settings).len() == 0 {
                    None
                } else {
                    settings
                },
            ),
        ),
{
    let s = settings_bytes(settings);
    let b = file_bytes(rs, s);
    let img = records_image(rs);
    lemma_records_image_len(rs);
    let n = rs.len() as int;
    let end: int = 16 + 128 * n;
    assert(b.len() == end + 4 + s.len());
    assert(b.take(8) =~= MAGIC@);
    assert(b.subrange(8, 12) =~= bytes32(VERSION as int));
    crate::bytes::lemma_le32_of_bytes(b, 8, VERSION as int);
    assert(b.subrange(12, 16) =~= bytes32((rs.len() as u32) as int));
    crate::bytes::lemma_le32_of_bytes(b, 12, n);
    assert(b.subrange(end, end + 4) =~= bytes32((s.len() as u32) as int));
    crate::bytes::lemma_le32_of_bytes(b, end, s.len() as int);
    assert(b.subrange(16, end) =~= img);
    lemma_kept_all(rs, n);
    assert(rs.take(n) =~= rs);
    assert(b.subrange(end + 4, end + 4 + s.len() as int) =~= s);
    if let Some(t) = settings {
        vstd::utf8::encode_utf8_valid_utf8(t);
        vstd::utf8::encode_utf8_decode_utf8(t);
    }
}

} // verus!
