//! What the writer writes, the reader reads back.
use vstd::prelude::*;

use crate::bytes::{
    field16, field32, field64, le16, le32, le64, lemma_field_lens, lemma_read_field16,
    lemma_read_field32, lemma_read_field64,
};
use crate::data::{
    header_error, body, entry_at, entry_bytes, file_image, file_len_of, first_missing, first_of_kind,
    first_section_error, header_bytes, header_fields, header_of, kind, kind_at, lemma_body_grows,
    lemma_table_bytes_len, lemma_table_bytes_step, pad_len, sec_offset, section_error,
    spec_crc32, spec_parse, table_bytes, table_offset, zeros, Header, Section, MAGIC,
    VERSION_MAJOR, VERSION_MINOR,
};

verus! {

/// `header_fields` with its integers folded.
spec fn folded_header(
    count: u32,
    flags: u32,
    data_version: u64,
    build_id: [u8; 16],
    table: int,
    file_len: int,
) -> Seq<u8> {
    MAGIC@ + field16(VERSION_MAJOR as int) + field16(VERSION_MINOR as int) + field32(count as int)
        + field32(flags as int) + field64(data_version as int) + build_id@ + field64(table)
        + field64(file_len)
}

proof fn lemma_folded_header(
    count: u32,
    flags: u32,
    data_version: u64,
    build_id: [u8; 16],
    table: int,
    file_len: int,
)
    ensures
        header_fields(count, flags, data_version, build_id, table, file_len) == folded_header(
            count,
            flags,
            data_version,
            build_id,
            table,
            file_len,
        ),
{
    reveal(field16);
    reveal(field32);
    reveal(field64);
}

/// The header fields read back from the 56 bytes the writer puts first.
#[verifier::spinoff_prover]
proof fn lemma_header_reads(
    count: u32,
    flags: u32,
    data_version: u64,
    build_id: [u8; 16],
    table: int,
    file_len: int,
)
    requires
        0 <= table <= u64::MAX,
        0 <= file_len <= u64::MAX,
    ensures
        ({
            let hf = header_fields(count, flags, data_version, build_id, table, file_len);
            &&& hf.len() == 56
            &&& kind_at(hf, 0) == MAGIC
            &&& le16(hf, 4) == VERSION_MAJOR
            &&& le16(hf, 6) == VERSION_MINOR
            &&& le32(hf, 8) == count
            &&& le32(hf, 12) == flags
            &&& le64(hf, 16) == data_version
            &&& hf.subrange(24, 40) == build_id@
            &&& le64(hf, 40) == table
            &&& le64(hf, 48) == file_len
        }),
{
    lemma_folded_header(count, flags, data_version, build_id, table, file_len);
    let hf = folded_header(count, flags, data_version, build_id, table, file_len);
    lemma_field_lens(VERSION_MAJOR as int);
    lemma_field_lens(VERSION_MINOR as int);
    lemma_field_lens(count as int);
    lemma_field_lens(flags as int);
    lemma_field_lens(data_version as int);
    lemma_field_lens(table);
    lemma_field_lens(file_len);
    assert(hf.len() == 56);
    assert(kind_at(hf, 0) =~= MAGIC);
    assert(hf.subrange(4, 6) =~= field16(VERSION_MAJOR as int));
    lemma_read_field16(hf, 4, VERSION_MAJOR as int);
    assert(hf.subrange(6, 8) =~= field16(VERSION_MINOR as int));
    lemma_read_field16(hf, 6, VERSION_MINOR as int);
    assert(hf.subrange(8, 12) =~= field32(count as int));
    lemma_read_field32(hf, 8, count as int);
    assert(hf.subrange(12, 16) =~= field32(flags as int));
    lemma_read_field32(hf, 12, flags as int);
    assert(hf.subrange(16, 24) =~= field64(data_version as int));
    lemma_read_field64(hf, 16, data_version as int);
    assert(hf.subrange(24, 40) =~= build_id@);
    assert(hf.subrange(40, 48) =~= field64(table));
    lemma_read_field64(hf, 40, table);
    assert(hf.subrange(48, 56) =~= field64(file_len));
    lemma_read_field64(hf, 48, file_len);
}

/// The file with its header and CRC folded.
spec fn folded_image(
    secs: Seq<([u8; 4], Seq<u8>)>,
    hb: Seq<u8>,
) -> Seq<u8> {
    let p = body(secs);
    hb + field32(spec_crc32(hb) as int) + zeros(4) + p + zeros(pad_len(64 + p.len())) + table_bytes(
        secs,
        secs.len() as int,
    )
}

proof fn lemma_folded_image(secs: Seq<([u8; 4], Seq<u8>)>, flags: u32, data_version: u64, build_id: [u8; 16])
    ensures
        file_image(secs, flags, data_version, build_id) == folded_image(
            secs,
            header_bytes(secs, flags, data_version, build_id),
        ),
{
    reveal(field32);
}

/// Where the parts of a written file are: header and CRC, then the sections' data from byte 64,
/// then the table at `table_offset`, which ends the file.
#[verifier::spinoff_prover]
proof fn lemma_image_layout(secs: Seq<([u8; 4], Seq<u8>)>, hb: Seq<u8>)
    requires
        hb.len() == 56,
    ensures
        ({
            let img = folded_image(secs, hb);
            let p = body(secs);
            &&& img.len() == file_len_of(secs)
            &&& img.subrange(0, 56) == hb
            &&& le32(img, 56) == spec_crc32(hb)
            &&& img.subrange(64, 64 + p.len() as int) == p
            &&& img.subrange(table_offset(secs), file_len_of(secs)) == table_bytes(secs, secs.len() as int)
            &&& table_offset(secs) == 64 + p.len() + pad_len(64 + p.len())
        }),
{
    let n = secs.len() as int;
    let img = folded_image(secs, hb);
    let p = body(secs);
    let pz = zeros(pad_len(64 + p.len()));
    let tb = table_bytes(secs, n);
    let c = field32(spec_crc32(hb) as int);
    lemma_field_lens(spec_crc32(hb) as int);
    lemma_table_bytes_len(secs, n);
    assert(secs.take(n) =~= secs);
    reveal(sec_offset);
    assert(table_offset(secs) == 64 + p.len() + pz.len());
    assert(img.len() == 64 + p.len() + pz.len() + tb.len());
    assert(img.subrange(0, 56) =~= hb);
    assert(img.subrange(56, 60) =~= c);
    lemma_read_field32(img, 56, spec_crc32(hb) as int);
    assert(img.subrange(64, 64 + p.len() as int) =~= p);
    assert(img.subrange(table_offset(secs), file_len_of(secs)) =~= tb);
}

/// Reads inside a part of `b` read that part.
proof fn lemma_reads_in(b: Seq<u8>, a: int, e: Seq<u8>, o: int)
    requires
        0 <= a,
        a + e.len() <= b.len(),
        b.subrange(a, a + e.len()) == e,
        0 <= o,
    ensures
        o + 4 <= e.len() ==> kind_at(b, a + o) == kind_at(e, o) && le32(b, a + o) == le32(e, o),
        o + 2 <= e.len() ==> le16(b, a + o) == le16(e, o),
        o + 8 <= e.len() ==> le64(b, a + o) == le64(e, o),
{
    assert forall|j: int| 0 <= j < e.len() implies b[a + j] == e[j] by {
        assert(b.subrange(a, a + e.len())[j] == b[a + j]);
    }
    if o + 4 <= e.len() {
        assert(kind_at(b, a + o) =~= kind_at(e, o));
    }
}

/// The data of section `i` in the body, and where it starts.
#[verifier::spinoff_prover]
proof fn lemma_body_has(secs: Seq<([u8; 4], Seq<u8>)>, i: int, m: int)
    requires
        0 <= i < m <= secs.len(),
    ensures
        sec_offset(secs, i) - 64 + secs[i].1.len() <= body(secs.take(m)).len(),
        body(secs.take(m)).subrange(sec_offset(secs, i) - 64, sec_offset(secs, i) - 64 + secs[i].1.len())
            == secs[i].1,
    decreases m - i,
{
    reveal(sec_offset);
    reveal(body);
    if m == i + 1 {
        let t = secs.take(i + 1);
        assert(t.drop_last() =~= secs.take(i));
        assert(t.last() == secs[i]);
        let p = body(secs.take(i));
        assert(body(t) == p + zeros(pad_len(64 + p.len())) + secs[i].1);
        assert(body(t).subrange((p.len() + pad_len(64 + p.len())) as int, body(t).len() as int) =~= secs[i].1);
    } else {
        lemma_body_has(secs, i, m - 1);
        let t = secs.take(m);
        assert(t.drop_last() =~= secs.take(m - 1));
        let q = body(secs.take(m - 1));
        assert(body(t) == q + zeros(pad_len(64 + q.len())) + t.last().1);
        let lo = sec_offset(secs, i) - 64;
        let hi = lo + secs[i].1.len();
        assert(body(t).subrange(lo, hi) =~= q.subrange(lo, hi));
    }
}

/// Section `i` ends before section `i + 1` starts, and every offset is 8-aligned and after the
/// header.
proof fn lemma_offsets(secs: Seq<([u8; 4], Seq<u8>)>, i: int)
    requires
        0 <= i < secs.len(),
    ensures
        64 <= sec_offset(secs, i),
        sec_offset(secs, i) % 8 == 0,
        sec_offset(secs, i) + secs[i].1.len() <= sec_offset(secs, i + 1),
        sec_offset(secs, i + 1) <= table_offset(secs),
{
    reveal(sec_offset);
    reveal(body);
    let p = body(secs.take(i));
    let x = 64 + p.len();
    assert(pad_len(x as nat) < 8);
    assert((x + pad_len(x as nat)) % 8 == 0);
    let t = secs.take(i + 1);
    assert(t.drop_last() =~= secs.take(i));
    assert(t.last() == secs[i]);
    assert(body(t).len() == p.len() + pad_len(x as nat) + secs[i].1.len());
    assert(secs.take(secs.len() as int) =~= secs);
    lemma_body_grows(secs, i + 1, secs.len() as int);
}

proof fn lemma_folded_entry(k: [u8; 4], off: int, len: int)
    ensures
        entry_bytes(k, off, len) == k@ + field32(0) + field64(off) + field64(len),
{
    reveal(entry_bytes);
    reveal(field32);
    reveal(field64);
}

/// A table entry read back.
proof fn lemma_entry_reads(k: [u8; 4], off: int, len: int)
    requires
        0 <= off <= u64::MAX,
        0 <= len <= u64::MAX,
    ensures
        entry_bytes(k, off, len).len() == 24,
        kind_at(entry_bytes(k, off, len), 0) == k,
        le64(entry_bytes(k, off, len), 8) == off,
        le64(entry_bytes(k, off, len), 16) == len,
{
    lemma_folded_entry(k, off, len);
    let e = k@ + field32(0) + field64(off) + field64(len);
    lemma_field_lens(0);
    lemma_field_lens(off);
    lemma_field_lens(len);
    assert(kind_at(e, 0) =~= k);
    assert(e.subrange(8, 16) =~= field64(off));
    lemma_read_field64(e, 8, off);
    assert(e.subrange(16, 24) =~= field64(len));
    lemma_read_field64(e, 16, len);
}

/// Entry `i` of the table.
proof fn lemma_table_has(secs: Seq<([u8; 4], Seq<u8>)>, i: int, m: int)
    requires
        0 <= i < m,
    ensures
        table_bytes(secs, m).subrange(24 * i, 24 * i + 24) == entry_bytes(
            secs[i].0,
            sec_offset(secs, i),
            secs[i].1.len() as int,
        ),
    decreases m - i,
{
    lemma_table_bytes_step(secs, m - 1);
    lemma_table_bytes_len(secs, m - 1);
    reveal(entry_bytes);
    let prev = table_bytes(secs, m - 1);
    let e = entry_bytes(secs[m - 1].0, sec_offset(secs, m - 1), secs[m - 1].1.len() as int);
    assert(e.len() == 24);
    if i == m - 1 {
        assert(table_bytes(secs, m).subrange(24 * i, 24 * i + 24) =~= e);
    } else {
        lemma_table_has(secs, i, m - 1);
        assert(table_bytes(secs, m).subrange(24 * i, 24 * i + 24) =~= prev.subrange(24 * i, 24 * i + 24));
    }
}

/// The header of a file written with `secs`, `flags`, `data_version` and `build_id`.
pub open spec fn written_header(
    secs: Seq<([u8; 4], Seq<u8>)>,
    flags: u32,
    data_version: u64,
    build_id: [u8; 16],
) -> Header {
    Header {
        major: VERSION_MAJOR,
        minor: VERSION_MINOR,
        section_count: secs.len() as u32,
        flags,
        data_version,
        build_id,
        section_table_offset: table_offset(secs) as u64,
        file_len: file_len_of(secs) as u64,
    }
}

/// The first of the first `n` written sections whose kind is `k`.
pub open spec fn first_written(secs: Seq<([u8; 4], Seq<u8>)>, k: [u8; 4], n: int) -> Option<int>
    decreases n,
{
    if n <= 0 {
        None
    } else {
        match first_written(secs, k, n - 1) {
            Some(i) => Some(i),
            None => if secs[n - 1].0 == k {
                Some(n - 1)
            } else {
                None
            },
        }
    }
}

/// Every required kind is among the sections.
pub open spec fn has_required(secs: Seq<([u8; 4], Seq<u8>)>) -> bool {
    forall|m: int|
        0 <= m < 11 ==> exists|i: int| 0 <= i < secs.len() && secs[i].0 == #[trigger] kind::REQUIRED@[m]
}

/// The file's size fits its fields.
pub open spec fn writable(secs: Seq<([u8; 4], Seq<u8>)>) -> bool {
    file_len_of(secs) <= u64::MAX && secs.len() <= u32::MAX
}

/// `hb` holds the header fields of a written file.
spec fn header_holds(
    hb: Seq<u8>,
    secs: Seq<([u8; 4], Seq<u8>)>,
    flags: u32,
    data_version: u64,
    build_id: [u8; 16],
) -> bool {
    &&& hb.len() == 56
    &&& kind_at(hb, 0) == MAGIC
    &&& le16(hb, 4) == VERSION_MAJOR
    &&& le16(hb, 6) == VERSION_MINOR
    &&& le32(hb, 8) == secs.len()
    &&& le32(hb, 12) == flags
    &&& le64(hb, 16) == data_version
    &&& hb.subrange(24, 40) == build_id@
    &&& le64(hb, 40) == table_offset(secs)
    &&& le64(hb, 48) == file_len_of(secs)
}

proof fn lemma_header_holds(
    secs: Seq<([u8; 4], Seq<u8>)>,
    flags: u32,
    data_version: u64,
    build_id: [u8; 16],
)
    requires
        writable(secs),
    ensures
        header_holds(header_bytes(secs, flags, data_version, build_id), secs, flags, data_version, build_id),
{
    let n = secs.len() as int;
    lemma_image_layout(secs, Seq::new(56, |i: int| 0u8));
    lemma_header_reads(n as u32, flags, data_version, build_id, table_offset(secs), file_len_of(secs));
}

#[verifier::spinoff_prover]
proof fn lemma_written_header(
    secs: Seq<([u8; 4], Seq<u8>)>,
    hb: Seq<u8>,
    flags: u32,
    data_version: u64,
    build_id: [u8; 16],
)
    requires
        writable(secs),
        header_holds(hb, secs, flags, data_version, build_id),
    ensures
        header_of(folded_image(secs, hb)) == written_header(secs, flags, data_version, build_id),
        header_error(folded_image(secs, hb)) is None,
        folded_image(secs, hb).len() == file_len_of(secs),
{
    lemma_image_layout(secs, hb);
    let img = folded_image(secs, hb);
    lemma_reads_in(img, 0, hb, 0);
    lemma_reads_in(img, 0, hb, 4);
    lemma_reads_in(img, 0, hb, 6);
    lemma_reads_in(img, 0, hb, 8);
    lemma_reads_in(img, 0, hb, 12);
    lemma_reads_in(img, 0, hb, 16);
    lemma_reads_in(img, 0, hb, 40);
    lemma_reads_in(img, 0, hb, 48);
    assert forall|j: int| 24 <= j < 40 implies img[j] == build_id@[j - 24] by {
        assert(img.subrange(0, 56)[j] == img[j]);
        assert(hb.subrange(24, 40)[j - 24] == hb[j]);
    }
    assert(header_of(img).build_id =~= build_id);
    assert(header_of(img) == written_header(secs, flags, data_version, build_id));
}

/// The table of a written file lists each section's kind, offset and length.
#[verifier::spinoff_prover]
proof fn lemma_written_entry(secs: Seq<([u8; 4], Seq<u8>)>, hb: Seq<u8>, i: int)
    requires
        writable(secs),
        hb.len() == 56,
        0 <= i < secs.len(),
    ensures
        entry_at(folded_image(secs, hb), table_offset(secs), i) == (Section {
            kind: secs[i].0,
            offset: sec_offset(secs, i) as u64,
            len: secs[i].1.len() as u64,
        }),
        section_error(entry_at(folded_image(secs, hb), table_offset(secs), i), file_len_of(secs) as u64) is None,
{
    let n = secs.len() as int;
    let img = folded_image(secs, hb);
    let table = table_offset(secs);
    lemma_image_layout(secs, hb);
    lemma_offsets(secs, i);
    lemma_table_bytes_len(secs, n);
    lemma_table_has(secs, i, n);
    let off = sec_offset(secs, i);
    let len = secs[i].1.len() as int;
    let e = entry_bytes(secs[i].0, off, len);
    lemma_entry_reads(secs[i].0, off, len);
    let tb = table_bytes(secs, n);
    assert(img.subrange(table + 24 * i, table + 24 * i + 24) =~= tb.subrange(24 * i, 24 * i + 24));
    lemma_reads_in(img, table + 24 * i, e, 0);
    lemma_reads_in(img, table + 24 * i, e, 8);
    lemma_reads_in(img, table + 24 * i, e, 16);
}

proof fn lemma_no_errors(secs: Seq<([u8; 4], Seq<u8>)>, hb: Seq<u8>, h: Header, m: int)
    requires
        writable(secs),
        hb.len() == 56,
        h.section_table_offset == table_offset(secs),
        h.file_len == file_len_of(secs),
        0 <= m <= secs.len(),
    ensures
        first_section_error(folded_image(secs, hb), h, m) is None,
    decreases m,
{
    if m > 0 {
        lemma_no_errors(secs, hb, h, m - 1);
        lemma_written_entry(secs, hb, m - 1);
    }
}

proof fn lemma_kinds(secs: Seq<([u8; 4], Seq<u8>)>, hb: Seq<u8>, h: Header, k: [u8; 4], m: int)
    requires
        writable(secs),
        hb.len() == 56,
        h.section_table_offset == table_offset(secs),
        0 <= m <= secs.len(),
    ensures
        first_of_kind(folded_image(secs, hb), h, k, m) == first_written(secs, k, m),
    decreases m,
{
    if m > 0 {
        lemma_kinds(secs, hb, h, k, m - 1);
        lemma_written_entry(secs, hb, m - 1);
    }
}

proof fn lemma_first_written_found(secs: Seq<([u8; 4], Seq<u8>)>, k: [u8; 4], i: int, m: int)
    requires
        0 <= i < m,
        secs[i].0 == k,
    ensures
        first_written(secs, k, m) is Some,
    decreases m,
{
    if i < m - 1 {
        lemma_first_written_found(secs, k, i, m - 1);
    }
}

proof fn lemma_none_missing(secs: Seq<([u8; 4], Seq<u8>)>, hb: Seq<u8>, h: Header, m: int)
    requires
        writable(secs),
        hb.len() == 56,
        h.section_table_offset == table_offset(secs),
        h.section_count == secs.len(),
        has_required(secs),
        0 <= m <= 11,
    ensures
        first_missing(folded_image(secs, hb), h, m) is None,
    decreases m,
{
    if m > 0 {
        lemma_none_missing(secs, hb, h, m - 1);
        let k = kind::REQUIRED@[m - 1];
        let i = choose|i: int| 0 <= i < secs.len() && secs[i].0 == kind::REQUIRED@[m - 1];
        lemma_first_written_found(secs, k, i, secs.len() as int);
        lemma_kinds(secs, hb, h, k, secs.len() as int);
    }
}

/// A file written with every required kind of section reads back: it parses, with the header
/// the writer wrote; its table lists every section with its kind, offset and length; the first
/// section of a kind is the first one written with it; and each section holds the data written.
pub proof fn law_written_file_reads_back(
    secs: Seq<([u8; 4], Seq<u8>)>,
    flags: u32,
    data_version: u64,
    build_id: [u8; 16],
)
    requires
        writable(secs),
        has_required(secs),
    ensures
        spec_parse(file_image(secs, flags, data_version, build_id)) == Ok::<Header, crate::data::DataError>(
            written_header(secs, flags, data_version, build_id),
        ),
        forall|k: [u8; 4]|
            first_of_kind(
                file_image(secs, flags, data_version, build_id),
                written_header(secs, flags, data_version, build_id),
                k,
                secs.len() as int,
            ) == first_written(secs, k, secs.len() as int),
        forall|i: int|
            0 <= i < secs.len() ==> #[trigger] entry_at(
                file_image(secs, flags, data_version, build_id),
                table_offset(secs),
                i,
            ) == (Section {
                kind: secs[i].0,
                offset: sec_offset(secs, i) as u64,
                len: secs[i].1.len() as u64,
            }),
        forall|i: int|
            0 <= i < secs.len() ==> file_image(secs, flags, data_version, build_id).subrange(
                sec_offset(secs, i),
                sec_offset(secs, i) + secs[i].1.len(),
            ) == #[trigger] secs[i].1,
{
    let hb = header_bytes(secs, flags, data_version, build_id);
    lemma_folded_image(secs, flags, data_version, build_id);
    lemma_header_holds(secs, flags, data_version, build_id);
    lemma_written_header(secs, hb, flags, data_version, build_id);
    let img = folded_image(secs, hb);
    let h = written_header(secs, flags, data_version, build_id);
    let n = secs.len() as int;
    lemma_no_errors(secs, hb, h, n);
    lemma_none_missing(secs, hb, h, 11);
    assert forall|k: [u8; 4]| first_of_kind(img, h, k, n) == first_written(secs, k, n) by {
        lemma_kinds(secs, hb, h, k, n);
    }
    assert forall|i: int| 0 <= i < n implies #[trigger] entry_at(img, table_offset(secs), i) == (Section {
        kind: secs[i].0,
        offset: sec_offset(secs, i) as u64,
        len: secs[i].1.len() as u64,
    }) by {
        lemma_written_entry(secs, hb, i);
    }
    assert forall|i: int| 0 <= i < n implies img.subrange(sec_offset(secs, i), sec_offset(secs, i) + secs[i].1.len())
        == #[trigger] secs[i].1 by {
        lemma_image_layout(secs, hb);
        assert(secs.take(n) =~= secs);
        lemma_body_has(secs, i, n);
        lemma_offsets(secs, i);
        let p = body(secs);
        let lo = sec_offset(secs, i);
        let hi = lo + secs[i].1.len();
        assert(img.subrange(lo, hi) =~= p.subrange(lo - 64, hi - 64));
    }
}

} // verus!
