//! The `type3arabi.dat` container: header and section table writer, validating reader
//! (`DataView`) and CRC-32.
use vstd::prelude::*;
use crate::bytes::{le16, le32, le64, bytes16, bytes32, bytes64, u16_at, u32_at, u64_at, push_u16, push_u32, push_u64, push_all};

pub mod kind;
pub mod records;
pub mod written;

verus! {

pub const MAGIC: [u8; 4] = [0x54, 0x33, 0x41, 0x44];
pub const VERSION_MAJOR: u16 = 1;
pub const VERSION_MINOR: u16 = 0;
pub const HEADER_LEN: usize = 64;
pub const SECTION_ENTRY_LEN: usize = 24;

#[derive(Debug, Clone, PartialEq, Eq)]
pub enum DataError {
    TooShort,
    BadMagic,
    UnsupportedVersion(u16, u16),
    HeaderCrc,
    FileLen { header: u64, actual: u64 },
    SectionTable,
    SectionBounds([u8; 4]),
    SectionAlign([u8; 4]),
    MissingSection([u8; 4]),
}

#[derive(Debug, Clone, Copy, PartialEq, Eq)]
pub struct Header {
    pub major: u16,
    pub minor: u16,
    pub section_count: u32,
    pub flags: u32,
    pub data_version: u64,
    pub build_id: [u8; 16],
    pub section_table_offset: u64,
    pub file_len: u64,
}

#[derive(Debug, Clone, Copy, PartialEq, Eq)]
pub struct Section {
    pub kind: [u8; 4],
    pub offset: u64,
    pub len: u64,
}

// ---------------------------------------------------------------------------------------------
// CRC-32 (IEEE, reflected), bit by bit.

/// One shift of the reflected CRC register.
pub open spec fn crc_bit(c: u32) -> u32 {
    if c & 1 != 0 {
        (c >> 1) ^ 0xEDB8_8320
    } else {
        c >> 1
    }
}

/// `k` shifts of the register.
pub open spec fn crc_bits(c: u32, k: nat) -> u32
    decreases k,
{
    if k == 0 {
        c
    } else {
        crc_bit(crc_bits(c, (k - 1) as nat))
    }
}

/// The register after feeding `data` to a register holding `c`.
pub open spec fn crc_update(c: u32, data: Seq<u8>) -> u32
    decreases data.len(),
{
    if data.len() == 0 {
        c
    } else {
        crc_bits(crc_update(c, data.drop_last()) ^ (data.last() as u32), 8)
    }
}

pub open spec fn spec_crc32(data: Seq<u8>) -> u32 {
    !crc_update(0xFFFF_FFFF, data)
}

/// CRC-32 (IEEE, reflected) — small table-less implementation; only used on the 56-byte header.
pub fn crc32(data: &[u8]) -> (r: u32)
    ensures
        r == spec_crc32(data@),
{
    let mut crc: u32 = 0xFFFF_FFFF;
    let mut i: usize = 0;
    while i < data.len()
        invariant
            i <= data@.len(),
            crc == crc_update(0xFFFF_FFFF, data@.take(i as int)),
        decreases data@.len() - i,
    {
        assert(data@.take(i + 1).drop_last() =~= data@.take(i as int));
        crc = crc ^ (data[i] as u32);
        let ghost start = crc;
        let mut k: usize = 0;
        while k < 8
            invariant
                k <= 8,
                crc == crc_bits(start, k as nat),
            decreases 8 - k,
        {
            crc = if crc & 1 != 0 {
                (crc >> 1) ^ 0xEDB8_8320
            } else {
                crc >> 1
            };
            k += 1;
        }
        i += 1;
    }
    assert(data@.take(data@.len() as int) =~= data@);
    !crc
}

// ---------------------------------------------------------------------------------------------
// The reader.

pub open spec fn kind_at(b: Seq<u8>, o: int) -> [u8; 4] {
    [b[o], b[o + 1], b[o + 2], b[o + 3]]
}

/// The header fields as stored in the first 56 bytes.
pub open spec fn header_of(b: Seq<u8>) -> Header {
    Header {
        major: le16(b, 4) as u16,
        minor: le16(b, 6) as u16,
        section_count: le32(b, 8) as u32,
        flags: le32(b, 12) as u32,
        data_version: le64(b, 16) as u64,
        build_id: [
            b[24], b[25], b[26], b[27], b[28], b[29], b[30], b[31],
            b[32], b[33], b[34], b[35], b[36], b[37], b[38], b[39],
        ],
        section_table_offset: le64(b, 40) as u64,
        file_len: le64(b, 48) as u64,
    }
}

/// Entry `i` of the section table starting at `table`.
pub open spec fn entry_at(b: Seq<u8>, table: int, i: int) -> Section {
    Section {
        kind: kind_at(b, table + 24 * i),
        offset: le64(b, table + 24 * i + 8) as u64,
        len: le64(b, table + 24 * i + 16) as u64,
    }
}

/// What is wrong with one section of a file of `file_len` bytes, if anything.
pub open spec fn section_error(s: Section, file_len: u64) -> Option<DataError> {
    if s.offset + s.len > u64::MAX || s.offset < 64 || s.offset + s.len > file_len {
        Some(DataError::SectionBounds(s.kind))
    } else if s.offset % 8 != 0 {
        Some(DataError::SectionAlign(s.kind))
    } else {
        None
    }
}

/// The error of the first of the first `n` sections that has one.
pub open spec fn first_section_error(b: Seq<u8>, h: Header, n: int) -> Option<DataError>
    decreases n,
{
    if n <= 0 {
        None
    } else {
        match first_section_error(b, h, n - 1) {
            Some(e) => Some(e),
            None => section_error(entry_at(b, h.section_table_offset as int, n - 1), h.file_len),
        }
    }
}

/// Index of the first of the first `n` sections whose kind is `k`.
pub open spec fn first_of_kind(b: Seq<u8>, h: Header, k: [u8; 4], n: int) -> Option<int>
    decreases n,
{
    if n <= 0 {
        None
    } else {
        match first_of_kind(b, h, k, n - 1) {
            Some(i) => Some(i),
            None => if entry_at(b, h.section_table_offset as int, n - 1).kind == k {
                Some(n - 1)
            } else {
                None
            },
        }
    }
}

/// The first of the first `m` required kinds that no section has.
pub open spec fn first_missing(b: Seq<u8>, h: Header, m: int) -> Option<[u8; 4]>
    decreases m,
{
    if m <= 0 {
        None
    } else {
        match first_missing(b, h, m - 1) {
            Some(k) => Some(k),
            None => if first_of_kind(b, h, kind::REQUIRED@[m - 1], h.section_count as int) is None {
                Some(kind::REQUIRED@[m - 1])
            } else {
                None
            },
        }
    }
}

/// The outcome of validating `b`: the header, or the first check that fails, in this order:
/// length, magic, major version, header CRC, file length, section table, each section's bounds and
/// alignment, required sections.
pub open spec fn spec_parse(b: Seq<u8>) -> Result<Header, DataError> {
    let h = header_of(b);
    if let Some(e) = header_error(b) {
        Err(e)
    } else if let Some(e) = first_section_error(b, h, h.section_count as int) {
        Err(e)
    } else if let Some(k) = first_missing(b, h, 11) {
        Err(DataError::MissingSection(k))
    } else {
        Ok(h)
    }
}

/// The first failing check before the sections are looked at, if any.
pub open spec fn header_error(b: Seq<u8>) -> Option<DataError> {
    let h = header_of(b);
    let table_end = h.section_table_offset + 24 * h.section_count;
    if b.len() < 64 {
        Some(DataError::TooShort)
    } else if kind_at(b, 0) != MAGIC {
        Some(DataError::BadMagic)
    } else if h.major != VERSION_MAJOR {
        Some(DataError::UnsupportedVersion(h.major, h.minor))
    } else if spec_crc32(b.subrange(0, 56)) != le32(b, 56) {
        Some(DataError::HeaderCrc)
    } else if h.file_len != b.len() {
        Some(DataError::FileLen { header: h.file_len, actual: b.len() as u64 })
    } else if table_end > u64::MAX || h.section_table_offset < 64 || table_end > h.file_len {
        Some(DataError::SectionTable)
    } else {
        None
    }
}

/// A validated, zero-copy view over a data file's bytes (usually a memory map).
#[derive(Debug, Clone, Copy)]
pub struct DataView<'a> {
    bytes: &'a [u8],
    header: Header,
}

fn read_kind(b: &[u8], o: usize) -> (r: [u8; 4])
    requires
        o + 4 <= b@.len(),
    ensures
        r == kind_at(b@, o as int),
{
    [b[o], b[o + 1], b[o + 2], b[o + 3]]
}

fn kind_eq(a: [u8; 4], b: [u8; 4]) -> (r: bool)
    ensures
        r == (a == b),
{
    let r = a[0] == b[0] && a[1] == b[1] && a[2] == b[2] && a[3] == b[3];
    proof {
        if r {
            assert(a =~= b);
        }
    }
    r
}

fn read_header(b: &[u8]) -> (h: Header)
    requires
        64 <= b@.len(),
    ensures
        h == header_of(b@),
{
    let h = Header {
        major: u16_at(b, 4),
        minor: u16_at(b, 6),
        section_count: u32_at(b, 8),
        flags: u32_at(b, 12),
        data_version: u64_at(b, 16),
        build_id: [
            b[24], b[25], b[26], b[27], b[28], b[29], b[30], b[31],
            b[32], b[33], b[34], b[35], b[36], b[37], b[38], b[39],
        ],
        section_table_offset: u64_at(b, 40),
        file_len: u64_at(b, 48),
    };
    proof {
        crate::bytes::lemma_le16_bounds(b@, 4);
        crate::bytes::lemma_le16_bounds(b@, 6);
        crate::bytes::lemma_le32_bounds(b@, 8);
        crate::bytes::lemma_le32_bounds(b@, 12);
    }
    h
}

impl<'a> DataView<'a> {
    #[verifier::type_invariant]
    closed spec fn valid(self) -> bool {
        spec_parse(self.bytes@) == Ok::<Header, DataError>(self.header)
    }

    /// The bytes of the file.
    pub closed spec fn spec_bytes(self) -> Seq<u8> {
        self.bytes@
    }

    /// The validated header.
    pub closed spec fn spec_header(self) -> Header {
        self.header
    }

    /// Validate header, section table, bounds, alignment and required sections. O(sections).
    pub fn parse(bytes: &'a [u8]) -> (r: Result<Self, DataError>)
        ensures
            match r {
                Ok(v) => spec_parse(bytes@) == Ok::<Header, DataError>(v.spec_header())
                    && v.spec_bytes() == bytes@,
                Err(e) => spec_parse(bytes@) == Err::<Header, DataError>(e),
            },
    {
        if bytes.len() < HEADER_LEN {
            return Err(DataError::TooShort);
        }
        if !kind_eq(read_kind(bytes, 0), MAGIC) {
            return Err(DataError::BadMagic);
        }
        let header = read_header(bytes);
        if header.major != VERSION_MAJOR {
            return Err(DataError::UnsupportedVersion(header.major, header.minor));
        }
        if crc32(&bytes[0..56]) != u32_at(bytes, 56) {
            return Err(DataError::HeaderCrc);
        }
        if header.file_len != bytes.len() as u64 {
            return Err(DataError::FileLen { header: header.file_len, actual: bytes.len() as u64 });
        }
        let table_len = match (header.section_count as u64).checked_mul(SECTION_ENTRY_LEN as u64) {
            Some(n) => n,
            None => return Err(DataError::SectionTable),
        };
        let table_end = match header.section_table_offset.checked_add(table_len) {
            Some(n) => n,
            None => return Err(DataError::SectionTable),
        };
        if header.section_table_offset < HEADER_LEN as u64 || table_end > header.file_len {
            return Err(DataError::SectionTable);
        }
        let ghost b = bytes@;
        let base = header.section_table_offset as usize;
        let count = header.section_count as usize;
        let mut i: usize = 0;
        while i < count
            invariant
                b == bytes@,
                b.len() == header.file_len,
                header == header_of(b),
                base == header.section_table_offset,
                count == header.section_count,
                base + 24 * count <= b.len(),
                b.len() <= usize::MAX,
                header_error(b) is None,
                i <= count,
                first_section_error(b, header, i as int) is None,
            decreases count - i,
        {
            let o = base + i * SECTION_ENTRY_LEN;
            let s = Section {
                kind: read_kind(bytes, o),
                offset: u64_at(bytes, o + 8),
                len: u64_at(bytes, o + 16),
            };
            assert(s == entry_at(b, base as int, i as int));
            proof {
                if section_error(s, header.file_len) is Some {
                    lemma_first_error_extends(b, header, i as int + 1, count as int);
                }
            }
            let end = match s.offset.checked_add(s.len) {
                Some(n) => n,
                None => return Err(DataError::SectionBounds(s.kind)),
            };
            if s.offset < HEADER_LEN as u64 || end > header.file_len {
                return Err(DataError::SectionBounds(s.kind));
            }
            if s.offset % 8 != 0 {
                return Err(DataError::SectionAlign(s.kind));
            }
            i += 1;
        }
        let mut m: usize = 0;
        while m < 11
            invariant
                b == bytes@,
                header == header_of(b),
                base == header.section_table_offset,
                count == header.section_count,
                base + 24 * count <= b.len(),
                header_error(b) is None,
                m <= 11,
                first_section_error(b, header, count as int) is None,
                first_missing(b, header, m as int) is None,
            decreases 11 - m,
        {
            let k = kind::REQUIRED[m];
            if find_kind(bytes, &header, k).is_none() {
                proof {
                    lemma_first_missing_extends(b, header, m as int + 1, 11);
                }
                return Err(DataError::MissingSection(k));
            }
            m += 1;
        }
        Ok(DataView { bytes, header })
    }

    pub fn header(&self) -> (r: &Header)
        ensures
            *r == self.spec_header(),
    {
        &self.header
    }

    /// The section table, in file order.
    pub fn sections(&self) -> (r: Vec<Section>)
        ensures
            r@.len() == self.spec_header().section_count,
            forall|i: int|
                0 <= i < r@.len() ==> #[trigger] r@[i] == entry_at(
                    self.spec_bytes(),
                    self.spec_header().section_table_offset as int,
                    i,
                ),
    {
        proof {
            use_type_invariant(self);
        }
        let b = self.bytes;
        let _n = b.len();
        let base = self.header.section_table_offset as usize;
        let count = self.header.section_count as usize;
        let mut out: Vec<Section> = Vec::new();
        let mut i: usize = 0;
        while i < count
            invariant
                b@ == self.bytes@,
                base == self.header.section_table_offset,
                count == self.header.section_count,
                base + 24 * count <= b@.len(),
                b@.len() <= usize::MAX,
                i <= count,
                out@.len() == i,
                forall|j: int| 0 <= j < i ==> #[trigger] out@[j] == entry_at(b@, base as int, j),
            decreases count - i,
        {
            let o = base + i * SECTION_ENTRY_LEN;
            out.push(Section {
                kind: read_kind(b, o),
                offset: u64_at(b, o + 8),
                len: u64_at(b, o + 16),
            });
            i += 1;
        }
        out
    }

    /// Bytes of the first section of `kind`, if present.
    #[verifier::rlimit(50)]
    pub fn section(&self, kind: [u8; 4]) -> (r: Option<&'a [u8]>)
        ensures
            match first_of_kind(
                self.spec_bytes(),
                self.spec_header(),
                kind,
                self.spec_header().section_count as int,
            ) {
                Some(i) => {
                    let s = entry_at(
                        self.spec_bytes(),
                        self.spec_header().section_table_offset as int,
                        i,
                    );
                    r is Some && r->0@ == self.spec_bytes().subrange(
                        s.offset as int,
                        s.offset + s.len,
                    )
                },
                None => r is None,
            },
    {
        proof {
            use_type_invariant(self);
        }
        let b = self.bytes;
        match find_kind(b, &self.header, kind) {
            None => None,
            Some(i) => {
                let _n = b.len();
                proof {
                    lemma_first_of_kind_in_range(b@, self.header, kind, self.header.section_count as int);
                    lemma_no_section_error(b@, self.header, i as int, self.header.section_count as int);
                }
                let o = self.header.section_table_offset as usize + i * SECTION_ENTRY_LEN;
                let off = u64_at(b, o + 8);
                let len = u64_at(b, o + 16);
                Some(&b[off as usize..(off + len) as usize])
            },
        }
    }
}

// ---------------------------------------------------------------------------------------------
// The writer.

pub open spec fn zeros(n: nat) -> Seq<u8> {
    Seq::new(n, |i: int| 0u8)
}

/// Zero bytes that bring position `x` to a multiple of 8.
pub open spec fn pad_len(x: nat) -> nat {
    if x % 8 == 0 {
        0
    } else {
        (8 - x % 8) as nat
    }
}

/// Everything after the 64-byte header up to the end of the last section's data: each section's
/// data, 8-aligned, with zero padding before it.
#[verifier::opaque]
pub open spec fn body(secs: Seq<([u8; 4], Seq<u8>)>) -> Seq<u8>
    decreases secs.len(),
{
    if secs.len() == 0 {
        Seq::empty()
    } else {
        let p = body(secs.drop_last());
        p + zeros(pad_len(64 + p.len())) + secs.last().1
    }
}

/// File offset of section `i`.
#[verifier::opaque]
pub open spec fn sec_offset(secs: Seq<([u8; 4], Seq<u8>)>, i: int) -> int {
    let p = body(secs.take(i));
    (64 + p.len() + pad_len(64 + p.len())) as int
}

/// File offset of the section table.
pub open spec fn table_offset(secs: Seq<([u8; 4], Seq<u8>)>) -> int {
    sec_offset(secs, secs.len() as int)
}

/// Length of the file that `finish` writes.
pub open spec fn file_len_of(secs: Seq<([u8; 4], Seq<u8>)>) -> int {
    table_offset(secs) + 24 * secs.len()
}

/// One section table entry: kind, 4 zero bytes, offset, length.
#[verifier::opaque]
pub open spec fn entry_bytes(k: [u8; 4], offset: int, len: int) -> Seq<u8> {
    k@ + bytes32(0) + bytes64(offset) + bytes64(len)
}

/// The table entries of the first `m` sections.
#[verifier::opaque]
pub open spec fn table_bytes(secs: Seq<([u8; 4], Seq<u8>)>, m: int) -> Seq<u8>
    decreases m,
{
    if m <= 0 {
        Seq::empty()
    } else {
        table_bytes(secs, m - 1) + entry_bytes(
            secs[m - 1].0,
            sec_offset(secs, m - 1),
            secs[m - 1].1.len() as int,
        )
    }
}

/// The first 56 bytes: magic, version, counts, flags, data version, build id, table offset and
/// file length.
pub open spec fn header_bytes(
    secs: Seq<([u8; 4], Seq<u8>)>,
    flags: u32,
    data_version: u64,
    build_id: [u8; 16],
) -> Seq<u8> {
    header_fields(
        secs.len() as u32,
        flags,
        data_version,
        build_id,
        table_offset(secs),
        file_len_of(secs),
    )
}

/// The first 56 bytes for the given field values.
pub open spec fn header_fields(
    count: u32,
    flags: u32,
    data_version: u64,
    build_id: [u8; 16],
    table: int,
    file_len: int,
) -> Seq<u8> {
    MAGIC@ + bytes16(VERSION_MAJOR as int) + bytes16(VERSION_MINOR as int) + bytes32(count as int)
        + bytes32(flags as int) + bytes64(data_version as int) + build_id@ + bytes64(table)
        + bytes64(file_len)
}

fn header_vec(count: u32, flags: u32, data_version: u64, build_id: [u8; 16], table: u64, file_len: u64) -> (out: Vec<u8>)
    ensures
        out@ == header_fields(count, flags, data_version, build_id, table as int, file_len as int),
{
    let mut out: Vec<u8> = Vec::new();
    push_all(&mut out, &MAGIC);
    push_u16(&mut out, VERSION_MAJOR);
    push_u16(&mut out, VERSION_MINOR);
    push_u32(&mut out, count);
    push_u32(&mut out, flags);
    push_u64(&mut out, data_version);
    push_all(&mut out, &build_id);
    push_u64(&mut out, table);
    push_u64(&mut out, file_len);
    assert(out@ =~= header_fields(count, flags, data_version, build_id, table as int, file_len as int));
    out
}

/// The whole file: header, its CRC-32, 4 zero bytes, the sections, padding, the section table.
pub open spec fn file_image(
    secs: Seq<([u8; 4], Seq<u8>)>,
    flags: u32,
    data_version: u64,
    build_id: [u8; 16],
) -> Seq<u8> {
    let h = header_bytes(secs, flags, data_version, build_id);
    let p = body(secs);
    h + bytes32(spec_crc32(h) as int) + zeros(4) + p + zeros(pad_len(64 + p.len())) + table_bytes(
        secs,
        secs.len() as int,
    )
}

/// Later sections only add to the body.
proof fn lemma_body_grows(secs: Seq<([u8; 4], Seq<u8>)>, i: int, j: int)
    requires
        0 <= i <= j <= secs.len(),
    ensures
        body(secs.take(i)).len() + pad_len(64 + body(secs.take(i)).len()) <= body(secs.take(j)).len()
            + pad_len(64 + body(secs.take(j)).len()),
    decreases j - i,
{
    reveal(body);
    if i < j {
        lemma_body_grows(secs, i, j - 1);
        assert(secs.take(j).drop_last() =~= secs.take(j - 1));
    }
}

/// Minimal writer: collects sections and emits a valid file.
#[derive(Default)]
pub struct Writer {
    sections: Vec<([u8; 4], Vec<u8>)>,
    pub flags: u32,
    pub data_version: u64,
    pub build_id: [u8; 16],
}

impl Writer {
    /// The sections added so far: kind and data.
    pub closed spec fn spec_sections(&self) -> Seq<([u8; 4], Seq<u8>)> {
        Seq::new(self.sections@.len(), |i: int| (self.sections@[i].0, self.sections@[i].1@))
    }

    pub closed spec fn spec_flags(&self) -> u32 {
        self.flags
    }

    pub closed spec fn spec_data_version(&self) -> u64 {
        self.data_version
    }

    pub closed spec fn spec_build_id(&self) -> [u8; 16] {
        self.build_id
    }

    pub fn new(data_version: u64) -> (w: Self)
        ensures
            w.spec_sections() == Seq::<([u8; 4], Seq<u8>)>::empty(),
            w.spec_flags() == 0,
            w.spec_data_version() == data_version,
            w.spec_build_id()@ == Seq::new(16, |i: int| 0u8),
    {
        let w = Writer { sections: Vec::new(), flags: 0, data_version, build_id: [0u8; 16] };
        assert(w.spec_sections() =~= Seq::<([u8; 4], Seq<u8>)>::empty());
        assert(w.build_id@ =~= Seq::new(16, |i: int| 0u8));
        w
    }

    pub fn add(&mut self, kind: [u8; 4], bytes: Vec<u8>)
        ensures
            final(self).spec_sections() == old(self).spec_sections().push((kind, bytes@)),
            final(self).spec_flags() == old(self).spec_flags(),
            final(self).spec_data_version() == old(self).spec_data_version(),
            final(self).spec_build_id() == old(self).spec_build_id(),
    {
        self.sections.push((kind, bytes));
        assert(self.spec_sections() =~= old(self).spec_sections().push((kind, bytes@)));
    }

    /// The file: `file_image` of the sections, flags, data version and build id.
    #[verifier::rlimit(100)]
    #[verifier::spinoff_prover]
    pub fn finish(self) -> (out: Vec<u8>)
        requires
            file_len_of(self.spec_sections()) <= usize::MAX,
            file_len_of(self.spec_sections()) <= u64::MAX,
        ensures
            out@ == file_image(
                self.spec_sections(),
                self.spec_flags(),
                self.spec_data_version(),
                self.spec_build_id(),
            ),
    {
        let ghost secs = self.spec_sections();
        let n = self.sections.len();
        let (mut body_v, entries) = self.layout();
        assert(secs.take(n as int) =~= secs);
        proof {
            reveal(sec_offset);
        }
        pad_to_8(&mut body_v, 64);
        let table = (64 + body_v.len()) as u64;
        proof {
            lemma_table_bytes_len(secs, n as int);
            reveal(sec_offset);
        }
        proof {
            lemma_entries_are_table(entries@, secs, n as int);
        }
        push_table(&mut body_v, &entries);
        let file_len = (64 + body_v.len()) as u64;
        let ghost h = header_bytes(secs, self.flags, self.data_version, self.build_id);
        let mut out = header_vec(
            n as u32,
            self.flags,
            self.data_version,
            self.build_id,
            table,
            file_len,
        );
        assert(out@ == h);
        let crc = crc32(out.as_slice());
        push_u32(&mut out, crc);
        push_u32(&mut out, 0);
        assert(bytes32(0) =~= zeros(4));
        let ghost head = out@;
        push_all(&mut out, body_v.as_slice());
        proof {
            let p = body(secs);
            let pz = zeros(pad_len(64 + p.len()));
            let tb = table_bytes(secs, secs.len() as int);
            assert(body_v@ == p + pz + tb);
            assert(head == h + bytes32(spec_crc32(h) as int) + zeros(4));
            assert(out@ =~= head + (p + pz + tb));
            assert(out@ =~= h + bytes32(spec_crc32(h) as int) + zeros(4) + p + pz + tb);
        }
        out
    }

    /// The sections' data, 8-aligned after the header, and their table entries.
    fn layout(&self) -> (r: (Vec<u8>, Vec<([u8; 4], u64, u64)>))
        requires
            file_len_of(self.spec_sections()) <= usize::MAX,
            file_len_of(self.spec_sections()) <= u64::MAX,
        ensures
            r.0@ == body(self.spec_sections()),
            r.1@.len() == self.spec_sections().len(),
            forall|j: int|
                0 <= j < r.1@.len() ==> entry_matches(#[trigger] r.1@[j], self.spec_sections(), j),
    {
        let ghost secs = self.spec_sections();
        let n = self.sections.len();
        let mut body_v: Vec<u8> = Vec::new();
        let mut entries: Vec<([u8; 4], u64, u64)> = Vec::new();
        let mut i: usize = 0;
        proof {
            reveal(body);
        }
        while i < n
            invariant
                n == secs.len(),
                secs == self.spec_sections(),
                file_len_of(secs) <= usize::MAX,
                file_len_of(secs) <= u64::MAX,
                i <= n,
                body_v@ == body(secs.take(i as int)),
                entries@.len() == i,
                forall|j: int| 0 <= j < i ==> entry_matches(#[trigger] entries@[j], secs, j),
            decreases n - i,
        {
            proof {
                reveal(body);
                reveal(sec_offset);
                lemma_body_grows(secs, i as int + 1, n as int);
                assert(secs.take(i + 1).drop_last() =~= secs.take(i as int));
            }
            pad_to_8(&mut body_v, 64);
            let kind = self.sections[i].0;
            let data = &self.sections[i].1;
            entries.push((kind, (64 + body_v.len()) as u64, data.len() as u64));
            push_all(&mut body_v, data.as_slice());
                assert(secs[i as int].1 == data@);
            i += 1;
        }
        assert(secs.take(n as int) =~= secs);
        (body_v, entries)
    }
}

/// Append zero bytes until `base + v.len()` is a multiple of 8.
fn pad_to_8(v: &mut Vec<u8>, base: usize)
    requires
        base + old(v)@.len() + pad_len((base + old(v)@.len()) as nat) <= usize::MAX,
    ensures
        final(v)@ == old(v)@ + zeros(pad_len((base + old(v)@.len()) as nat)),
{
    let pad = (8 - (base + v.len()) % 8) % 8;
    let ghost before = v@;
    let mut k: usize = 0;
    while k < pad
        invariant
            k <= pad,
            v@ == before + zeros(k as nat),
        decreases pad - k,
    {
        v.push(0);
        k += 1;
        assert(v@ =~= before + zeros(k as nat));
    }
}

proof fn lemma_table_bytes_step(secs: Seq<([u8; 4], Seq<u8>)>, m: int)
    requires
        0 <= m,
    ensures
        table_bytes(secs, m + 1) == table_bytes(secs, m) + entry_bytes(
            secs[m].0,
            sec_offset(secs, m),
            secs[m].1.len() as int,
        ),
        table_bytes(secs, 0) == Seq::<u8>::empty(),
{
    reveal(table_bytes);
}

proof fn lemma_table_bytes_len(secs: Seq<([u8; 4], Seq<u8>)>, m: int)
    requires
        0 <= m,
    ensures
        table_bytes(secs, m).len() == 24 * m,
    decreases m,
{
    reveal(table_bytes);
    reveal(entry_bytes);
    if m > 0 {
        lemma_table_bytes_len(secs, m - 1);
    }
}

/// Append one table entry.
fn push_entry(v: &mut Vec<u8>, k4: [u8; 4], off: u64, len: u64)
    ensures
        final(v)@ == old(v)@ + entry_bytes(k4, off as int, len as int),
{
    push_all(v, &k4);
    push_u32(v, 0);
    push_u64(v, off);
    push_u64(v, len);
    reveal(entry_bytes);
    assert(final(v)@ =~= old(v)@ + entry_bytes(k4, off as int, len as int));
}

/// `e` is the table entry of section `j`: its kind, offset and length.
pub open spec fn entry_matches(e: ([u8; 4], u64, u64), secs: Seq<([u8; 4], Seq<u8>)>, j: int) -> bool {
    &&& e.0 == secs[j].0
    &&& e.1 as int == sec_offset(secs, j)
    &&& e.2 as int == secs[j].1.len()
}

/// Table entries for the first `m` of `es` (kind, offset, length).
pub open spec fn entries_bytes(es: Seq<([u8; 4], u64, u64)>, m: int) -> Seq<u8>
    decreases m,
{
    if m <= 0 {
        Seq::empty()
    } else {
        entries_bytes(es, m - 1) + entry_bytes(es[m - 1].0, es[m - 1].1 as int, es[m - 1].2 as int)
    }
}

proof fn lemma_entries_are_table(
    es: Seq<([u8; 4], u64, u64)>,
    secs: Seq<([u8; 4], Seq<u8>)>,
    m: int,
)
    requires
        0 <= m <= es.len(),
        es.len() == secs.len(),
        forall|j: int| 0 <= j < secs.len() ==> entry_matches(#[trigger] es[j], secs, j),
    ensures
        entries_bytes(es, m) == table_bytes(secs, m),
    decreases m,
{
    if m == 0 {
        lemma_table_bytes_step(secs, 0);
    } else {
        lemma_entries_are_table(es, secs, m - 1);
        lemma_table_bytes_step(secs, m - 1);
        assert(entry_matches(es[m - 1], secs, m - 1));
        assert(entries_bytes(es, m) == entries_bytes(es, m - 1) + entry_bytes(
            es[m - 1].0,
            es[m - 1].1 as int,
            es[m - 1].2 as int,
        ));
    }
}

/// Append the table entries.
fn push_table(v: &mut Vec<u8>, entries: &Vec<([u8; 4], u64, u64)>)
    ensures
        final(v)@ == old(v)@ + entries_bytes(entries@, entries@.len() as int),
{
    let n = entries.len();
    let ghost before = v@;
    let mut t: usize = 0;
    assert(v@ =~= before + entries_bytes(entries@, 0));
    while t < n
        invariant
            n == entries@.len(),
            t <= n,
            v@ == before + entries_bytes(entries@, t as int),
        decreases n - t,
    {
        let (k4, off, len) = entries[t];
        push_entry(v, k4, off, len);
        proof {
            vstd::seq_lib::lemma_concat_associative(
                before,
                entries_bytes(entries@, t as int),
                entry_bytes(k4, off as int, len as int),
            );
        }
        t += 1;
    }
}

/// The first section of a kind is one of the sections, and has that kind.
proof fn lemma_first_of_kind_in_range(b: Seq<u8>, h: Header, k: [u8; 4], n: int)
    ensures
        first_of_kind(b, h, k, n) matches Some(i) ==> 0 <= i < n && entry_at(
            b,
            h.section_table_offset as int,
            i,
        ).kind == k,
    decreases n,
{
    if n > 0 {
        lemma_first_of_kind_in_range(b, h, k, n - 1);
    }
}

/// When no section among the first `n` has an error, section `i < n` has none.
proof fn lemma_no_section_error(b: Seq<u8>, h: Header, i: int, n: int)
    requires
        0 <= i < n,
        first_section_error(b, h, n) is None,
    ensures
        section_error(entry_at(b, h.section_table_offset as int, i), h.file_len) is None,
    decreases n,
{
    if i < n - 1 {
        lemma_no_section_error(b, h, i, n - 1);
    }
}

/// Index of the first section of kind `k` in the table that `h` describes.
fn find_kind(b: &[u8], h: &Header, k: [u8; 4]) -> (r: Option<usize>)
    requires
        *h == header_of(b@),
        h.section_table_offset + 24 * h.section_count <= b@.len(),
    ensures
        match first_of_kind(b@, *h, k, h.section_count as int) {
            Some(i) => r == Some(i as usize),
            None => r is None,
        },
{
    let _n = b.len();
    let base = h.section_table_offset as usize;
    let count = h.section_count as usize;
    let mut i: usize = 0;
    while i < count
        invariant
            base == h.section_table_offset,
            count == h.section_count,
            base + 24 * count <= b@.len(),
            b@.len() <= usize::MAX,
            i <= count,
            first_of_kind(b@, *h, k, i as int) is None,
        decreases count - i,
    {
        let o = base + i * SECTION_ENTRY_LEN;
        if kind_eq(read_kind(b, o), k) {
            proof {
                lemma_first_of_kind_extends(b@, *h, k, i as int + 1, count as int);
            }
            return Some(i);
        }
        i += 1;
    }
    None
}

/// Once found among the first `n` sections, the first section error stays the same.
proof fn lemma_first_error_extends(b: Seq<u8>, h: Header, n: int, m: int)
    requires
        n <= m,
        first_section_error(b, h, n) is Some,
    ensures
        first_section_error(b, h, m) == first_section_error(b, h, n),
    decreases m - n,
{
    if n < m {
        lemma_first_error_extends(b, h, n, m - 1);
    }
}

/// Once a required kind is found missing, it stays the first missing one.
proof fn lemma_first_missing_extends(b: Seq<u8>, h: Header, n: int, m: int)
    requires
        n <= m,
        first_missing(b, h, n) is Some,
    ensures
        first_missing(b, h, m) == first_missing(b, h, n),
    decreases m - n,
{
    if n < m {
        lemma_first_missing_extends(b, h, n, m - 1);
    }
}

/// Once found among the first `n` sections, the first section of a kind stays the same.
proof fn lemma_first_of_kind_extends(b: Seq<u8>, h: Header, k: [u8; 4], n: int, m: int)
    requires
        n <= m,
        first_of_kind(b, h, k, n) is Some,
    ensures
        first_of_kind(b, h, k, m) == first_of_kind(b, h, k, n),
    decreases m - n,
{
    if n < m {
        lemma_first_of_kind_extends(b, h, k, n, m - 1);
    }
}

} // verus!
