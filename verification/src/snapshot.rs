//! The user model's snapshot: the compacted model, so the journal can be truncated.
//!
//! Layout (little-endian), every text prefixed with its UTF-8 length in one byte:
//!   magic u32 | consumed u64 | prefix_hash u64 | clock u64
//!   n_keys u32, per key: key, n u8, per choice: word, count u32, last u64
//!   n_neg u32, per entry: key, word, count u32
//!   n_words u32, per entry: word, count u32
//!   fnv64 u64 over everything before it
//! Texts longer than 255 bytes are left out. `consumed` is how many journal bytes the snapshot
//! already holds and `prefix_hash` the FNV-1a of the first min(consumed, 4096) of them: a reader
//! replays the journal from `consumed` only while the journal still starts with those bytes.
use vstd::prelude::*;
use vstd::utf8::{decode_utf8, encode_utf8, valid_utf8};

use crate::bytes::{
    bytes32, bytes64, field32, field64, le32, le64, lemma_field_lens, lemma_read_field32,
    lemma_le64_of_bytes, lemma_read_field64, push_all, push_u32, push_u64, u32_at, u64_at,
};
use crate::keyed::{
    lemma_pput_last, lemma_put_last, pair_lt, pkeys, pput, put, skeys, sorted_keys, sorted_pairs,
    str_lt,
};
use crate::user::{
    choice_view, choices_view, counts_view, list_view, neg_view, user_wf, Choice, ChoiceV, UserView,
};

verus! {

pub const SNAPSHOT_MAGIC: u32 = 0x5433_5501;

/// Where the journal replay starts for a snapshot.
#[derive(Clone, Copy, Debug, PartialEq, Eq)]
pub struct SnapshotMark {
    pub consumed: u64,
    pub prefix_hash: u64,
}

impl Default for SnapshotMark {
    fn default() -> (m: Self)
        ensures
            m.consumed == 0 && m.prefix_hash == 0,
    {
        SnapshotMark { consumed: 0, prefix_hash: 0 }
    }
}

pub open spec fn fnv64_step(h: u64, b: u8) -> u64 {
    (h ^ (b as u64)).wrapping_mul(0x0000_0100_0000_01b3)
}

/// FNV-1a-64 of `bytes`.
pub open spec fn spec_fnv64(bytes: Seq<u8>) -> u64
    decreases bytes.len(),
{
    if bytes.len() == 0 {
        0xcbf2_9ce4_8422_2325
    } else {
        fnv64_step(spec_fnv64(bytes.drop_last()), bytes.last())
    }
}

/// FNV-1a 64 (the snapshot checksum and the journal prefix identity).
pub fn fnv64(bytes: &[u8]) -> (r: u64)
    ensures
        r == spec_fnv64(bytes@),
{
    let mut h: u64 = 0xcbf2_9ce4_8422_2325;
    let mut i: usize = 0;
    assert(bytes@.take(0) =~= Seq::<u8>::empty());
    while i < bytes.len()
        invariant
            i <= bytes@.len(),
            h == spec_fnv64(bytes@.take(i as int)),
        decreases bytes.len() - i,
    {
        assert(bytes@.take(i + 1).drop_last() =~= bytes@.take(i as int));
        h = (h ^ (bytes[i] as u64)).wrapping_mul(0x0000_0100_0000_01b3);
        i += 1;
    }
    assert(bytes@.take(bytes@.len() as int) =~= bytes@);
    h
}

/// How many journal bytes the prefix identity covers.
pub open spec fn prefix_len(len: int, consumed: u64) -> int {
    let c = if consumed < 4096 {
        consumed as int
    } else {
        4096
    };
    if len < c {
        len
    } else {
        c
    }
}

impl SnapshotMark {
    /// The journal prefix identity: FNV-1a-64 of the first min(consumed, 4096) bytes.
    pub fn prefix_of(journal: &[u8], consumed: u64) -> (r: u64)
        ensures
            r == spec_fnv64(journal@.take(prefix_len(journal@.len() as int, consumed))),
    {
        let c: usize = if consumed < 4096 {
            consumed as usize
        } else {
            4096
        };
        let n = if journal.len() < c {
            journal.len()
        } else {
            c
        };
        let head = vstd::slice::slice_subrange(journal, 0, n);
        assert(head@ =~= journal@.take(prefix_len(journal@.len() as int, consumed)));
        fnv64(head)
    }
}

// ---------------------------------------------------------------------------------------------
// Encoding.

/// A text short enough for its one-byte length prefix.
pub open spec fn fits(s: Seq<char>) -> bool {
    encode_utf8(s).len() <= 255
}

/// A text with its length prefix.
pub open spec fn text_field(s: Seq<char>) -> Seq<u8> {
    seq![encode_utf8(s).len() as u8] + encode_utf8(s)
}

pub open spec fn choice_bytes(c: ChoiceV) -> Seq<u8> {
    text_field(c.0) + bytes32(c.1 as int) + bytes64(c.2 as int)
}

/// The choices whose word fits, encoded, and how many they are.
pub open spec fn list_bytes(l: Seq<ChoiceV>) -> Seq<u8>
    decreases l.len(),
{
    if l.len() == 0 {
        Seq::empty()
    } else {
        list_bytes(l.drop_last()) + if fits(l.last().0) {
            choice_bytes(l.last())
        } else {
            Seq::empty()
        }
    }
}

pub open spec fn list_count(l: Seq<ChoiceV>) -> nat
    decreases l.len(),
{
    if l.len() == 0 {
        0
    } else {
        list_count(l.drop_last()) + if fits(l.last().0) {
            1nat
        } else {
            0nat
        }
    }
}

pub open spec fn key_entry(e: (Seq<char>, Seq<ChoiceV>)) -> Seq<u8> {
    if fits(e.0) {
        text_field(e.0) + seq![list_count(e.1) as u8] + list_bytes(e.1)
    } else {
        Seq::empty()
    }
}

pub open spec fn keys_bytes(cs: Seq<(Seq<char>, Seq<ChoiceV>)>) -> Seq<u8>
    decreases cs.len(),
{
    if cs.len() == 0 {
        Seq::empty()
    } else {
        keys_bytes(cs.drop_last()) + key_entry(cs.last())
    }
}

pub open spec fn keys_count(cs: Seq<(Seq<char>, Seq<ChoiceV>)>) -> nat
    decreases cs.len(),
{
    if cs.len() == 0 {
        0
    } else {
        keys_count(cs.drop_last()) + if fits(cs.last().0) {
            1nat
        } else {
            0nat
        }
    }
}

pub open spec fn neg_entry(e: ((Seq<char>, Seq<char>), u32)) -> Seq<u8> {
    if fits(e.0.0) && fits(e.0.1) {
        text_field(e.0.0) + text_field(e.0.1) + bytes32(e.1 as int)
    } else {
        Seq::empty()
    }
}

pub open spec fn neg_bytes(ns: Seq<((Seq<char>, Seq<char>), u32)>) -> Seq<u8>
    decreases ns.len(),
{
    if ns.len() == 0 {
        Seq::empty()
    } else {
        neg_bytes(ns.drop_last()) + neg_entry(ns.last())
    }
}

pub open spec fn neg_count(ns: Seq<((Seq<char>, Seq<char>), u32)>) -> nat
    decreases ns.len(),
{
    if ns.len() == 0 {
        0
    } else {
        neg_count(ns.drop_last()) + if fits(ns.last().0.0) && fits(ns.last().0.1) {
            1nat
        } else {
            0nat
        }
    }
}

pub open spec fn word_entry(e: (Seq<char>, u32)) -> Seq<u8> {
    if fits(e.0) {
        text_field(e.0) + bytes32(e.1 as int)
    } else {
        Seq::empty()
    }
}

pub open spec fn words_bytes(ws: Seq<(Seq<char>, u32)>) -> Seq<u8>
    decreases ws.len(),
{
    if ws.len() == 0 {
        Seq::empty()
    } else {
        words_bytes(ws.drop_last()) + word_entry(ws.last())
    }
}

pub open spec fn words_count(ws: Seq<(Seq<char>, u32)>) -> nat
    decreases ws.len(),
{
    if ws.len() == 0 {
        0
    } else {
        words_count(ws.drop_last()) + if fits(ws.last().0) {
            1nat
        } else {
            0nat
        }
    }
}

/// The fixed-size start of a snapshot: magic, mark, clock and the number of keys.
pub open spec fn snapshot_header(v: UserView, mark: SnapshotMark) -> Seq<u8> {
    field32(SNAPSHOT_MAGIC as int) + field64(mark.consumed as int) + field64(mark.prefix_hash as int)
        + field64(v.clock as int) + field32(keys_count(v.choices) as int)
}

/// The sections after the header, in order.
pub open spec fn sections(v: UserView) -> Seq<u8> {
    keys_bytes(v.choices) + field32(neg_count(v.neg) as int) + neg_bytes(v.neg) + field32(
        words_count(v.words) as int,
    ) + words_bytes(v.words)
}

/// The snapshot without its checksum.
pub open spec fn snapshot_body(v: UserView, mark: SnapshotMark) -> Seq<u8> {
    snapshot_header(v, mark) + sections(v)
}

/// The snapshot of `v`: its body, then the FNV-1a-64 of the body.
pub open spec fn spec_snapshot(v: UserView, mark: SnapshotMark) -> Seq<u8> {
    snapshot_body(v, mark) + field64(spec_fnv64(snapshot_body(v, mark)) as int)
}

/// Every count a snapshot stores fits its field.
pub open spec fn encodable(v: UserView) -> bool {
    &&& v.choices.len() <= u32::MAX
    &&& v.neg.len() <= u32::MAX
    &&& v.words.len() <= u32::MAX
    &&& forall|i: int| 0 <= i < v.choices.len() ==> (#[trigger] v.choices[i]).1.len() <= 255
}

/// Appends `s` with its length prefix, when it fits.
fn put_text(out: &mut Vec<u8>, s: &str) -> (ok: bool)
    ensures
        ok == fits(s@),
        final(out)@ == old(out)@ + if ok { text_field(s@) } else { Seq::<u8>::empty() },
{
    let b = s.as_bytes();
    if b.len() > 255 {
        assert(final(out)@ =~= old(out)@ + Seq::<u8>::empty()) by {
            assert(out@ =~= old(out)@ + Seq::<u8>::empty());
        }
        return false;
    }
    let ghost before = out@;
    out.push(b.len() as u8);
    push_all(out, b);
    assert(out@ =~= before + text_field(s@));
    true
}

/// The choices of `l` whose word fits, encoded, and how many they are.
fn encode_list(l: &Vec<Choice>) -> (r: (Vec<u8>, u8))
    requires
        l@.len() <= 255,
    ensures
        r.0@ == list_bytes(list_view(l@)),
        r.1 == list_count(list_view(l@)),
{
    let ghost lv = list_view(l@);
    let mut out: Vec<u8> = Vec::new();
    let mut n: u8 = 0;
    let mut i: usize = 0;
    assert(lv.take(0) =~= Seq::<ChoiceV>::empty());
    while i < l.len()
        invariant
            i <= l@.len() <= 255,
            lv == list_view(l@),
            n <= i,
            out@ == list_bytes(lv.take(i as int)),
            n == list_count(lv.take(i as int)),
        decreases l.len() - i,
    {
        assert(lv.take(i + 1).drop_last() =~= lv.take(i as int));
        assert(lv[i as int] == choice_view(l@[i as int]));
        let ghost before = out@;
        if put_text(&mut out, l[i].word.as_str()) {
            push_u32(&mut out, l[i].count);
            push_u64(&mut out, l[i].last);
            n += 1;
            assert(out@ =~= before + choice_bytes(lv[i as int]));
        } else {
            assert(out@ =~= before + Seq::<u8>::empty());
        }
        i += 1;
    }
    assert(lv.take(l@.len() as int) =~= lv);
    (out, n)
}

/// The keys whose text fits, with their choices, encoded, and how many they are.
pub(crate) fn encode_keys(cs: &Vec<(String, Vec<Choice>)>) -> (r: (Vec<u8>, u32))
    requires
        cs@.len() <= u32::MAX,
        forall|i: int| 0 <= i < cs@.len() ==> (#[trigger] cs@[i]).1@.len() <= 255,
    ensures
        r.0@ == keys_bytes(choices_view(cs@)),
        r.1 == keys_count(choices_view(cs@)),
{
    let ghost cv = choices_view(cs@);
    let mut out: Vec<u8> = Vec::new();
    let mut n: u32 = 0;
    let mut i: usize = 0;
    assert(cv.take(0) =~= Seq::<(Seq<char>, Seq<ChoiceV>)>::empty());
    while i < cs.len()
        invariant
            i <= cs@.len() <= u32::MAX,
            cv == choices_view(cs@),
            forall|j: int| 0 <= j < cs@.len() ==> (#[trigger] cs@[j]).1@.len() <= 255,
            n <= i,
            out@ == keys_bytes(cv.take(i as int)),
            n == keys_count(cv.take(i as int)),
        decreases cs.len() - i,
    {
        assert(cv.take(i + 1).drop_last() =~= cv.take(i as int));
        assert(cv[i as int] == (cs@[i as int].0@, list_view(cs@[i as int].1@)));
        let ghost before = out@;
        if put_text(&mut out, cs[i].0.as_str()) {
            let (body, k) = encode_list(&cs[i].1);
            out.push(k);
            push_all(&mut out, body.as_slice());
            n += 1;
            assert(out@ =~= before + key_entry(cv[i as int]));
        } else {
            assert(out@ =~= before + key_entry(cv[i as int]));
        }
        i += 1;
    }
    assert(cv.take(cs@.len() as int) =~= cv);
    (out, n)
}

/// The negative evidence whose texts fit, encoded, and how many entries they are.
pub(crate) fn encode_neg(ns: &Vec<((String, String), u32)>) -> (r: (Vec<u8>, u32))
    requires
        ns@.len() <= u32::MAX,
    ensures
        r.0@ == neg_bytes(neg_view(ns@)),
        r.1 == neg_count(neg_view(ns@)),
{
    let ghost nv = neg_view(ns@);
    let mut out: Vec<u8> = Vec::new();
    let mut n: u32 = 0;
    let mut i: usize = 0;
    assert(nv.take(0) =~= Seq::<((Seq<char>, Seq<char>), u32)>::empty());
    while i < ns.len()
        invariant
            i <= ns@.len() <= u32::MAX,
            nv == neg_view(ns@),
            n <= i,
            out@ == neg_bytes(nv.take(i as int)),
            n == neg_count(nv.take(i as int)),
        decreases ns.len() - i,
    {
        assert(nv.take(i + 1).drop_last() =~= nv.take(i as int));
        let ghost before = out@;
        let mut entry: Vec<u8> = Vec::new();
        let ok1 = put_text(&mut entry, ns[i].0.0.as_str());
        let ok2 = put_text(&mut entry, ns[i].0.1.as_str());
        if ok1 && ok2 {
            push_u32(&mut entry, ns[i].1);
            push_all(&mut out, entry.as_slice());
            n += 1;
            assert(out@ =~= before + neg_entry(nv[i as int]));
        } else {
            assert(out@ =~= before + neg_entry(nv[i as int]));
        }
        i += 1;
    }
    assert(nv.take(ns@.len() as int) =~= nv);
    (out, n)
}

/// The word counts whose word fits, encoded, and how many they are.
pub(crate) fn encode_words(ws: &Vec<(String, u32)>) -> (r: (Vec<u8>, u32))
    requires
        ws@.len() <= u32::MAX,
    ensures
        r.0@ == words_bytes(counts_view(ws@)),
        r.1 == words_count(counts_view(ws@)),
{
    let ghost wv = counts_view(ws@);
    let mut out: Vec<u8> = Vec::new();
    let mut n: u32 = 0;
    let mut i: usize = 0;
    assert(wv.take(0) =~= Seq::<(Seq<char>, u32)>::empty());
    while i < ws.len()
        invariant
            i <= ws@.len() <= u32::MAX,
            wv == counts_view(ws@),
            n <= i,
            out@ == words_bytes(wv.take(i as int)),
            n == words_count(wv.take(i as int)),
        decreases ws.len() - i,
    {
        assert(wv.take(i + 1).drop_last() =~= wv.take(i as int));
        let ghost before = out@;
        if put_text(&mut out, ws[i].0.as_str()) {
            push_u32(&mut out, ws[i].1);
            n += 1;
            assert(out@ =~= before + word_entry(wv[i as int]));
        } else {
            assert(out@ =~= before + word_entry(wv[i as int]));
        }
        i += 1;
    }
    assert(wv.take(ws@.len() as int) =~= wv);
    (out, n)
}

// ---------------------------------------------------------------------------------------------
// Decoding.

/// The text with its length prefix at `p` of `d`, and where the next field starts.
pub open spec fn read_text(d: Seq<u8>, p: int) -> Option<(Seq<char>, int)> {
    if p < 0 || p + 1 > d.len() {
        None
    } else {
        let n = d[p] as int;
        if p + 1 + n > d.len() {
            None
        } else {
            let b = d.subrange(p + 1, p + 1 + n);
            if valid_utf8(b) {
                Some((decode_utf8(b), p + 1 + n))
            } else {
                None
            }
        }
    }
}

/// The `u32` at `p`, and where the next field starts.
pub open spec fn read_count(d: Seq<u8>, p: int) -> Option<(u32, int)> {
    if p < 0 || p + 4 > d.len() {
        None
    } else {
        Some((le32(d, p) as u32, p + 4))
    }
}

pub open spec fn read_choice(d: Seq<u8>, p: int) -> Option<(ChoiceV, int)> {
    match read_text(d, p) {
        None => None,
        Some((w, q)) => if q + 12 > d.len() {
            None
        } else {
            Some(((w, le32(d, q) as u32, le64(d, q + 4) as u64), q + 12))
        },
    }
}

pub open spec fn read_choices(d: Seq<u8>, p: int, n: int) -> Option<(Seq<ChoiceV>, int)>
    decreases n,
{
    if n <= 0 {
        Some((Seq::empty(), p))
    } else {
        match read_choices(d, p, n - 1) {
            None => None,
            Some((l, q)) => match read_choice(d, q) {
                None => None,
                Some((c, q2)) => Some((l.push(c), q2)),
            },
        }
    }
}

pub open spec fn read_key(d: Seq<u8>, p: int) -> Option<((Seq<char>, Seq<ChoiceV>), int)> {
    match read_text(d, p) {
        None => None,
        Some((k, q)) => if q + 1 > d.len() {
            None
        } else {
            match read_choices(d, q + 1, d[q] as int) {
                None => None,
                Some((l, q2)) => Some(((k, l), q2)),
            }
        },
    }
}

/// `n` keys with their choices from `p`, each set in turn.
pub open spec fn read_keys(d: Seq<u8>, p: int, n: int) -> Option<(Seq<(Seq<char>, Seq<ChoiceV>)>, int)>
    decreases n,
{
    if n <= 0 {
        Some((Seq::empty(), p))
    } else {
        match read_keys(d, p, n - 1) {
            None => None,
            Some((cs, q)) => match read_key(d, q) {
                None => None,
                Some((e, q2)) => Some((put(cs, e.0, e.1), q2)),
            },
        }
    }
}

pub open spec fn read_neg(d: Seq<u8>, p: int) -> Option<(((Seq<char>, Seq<char>), u32), int)> {
    match read_text(d, p) {
        None => None,
        Some((k, q)) => match read_text(d, q) {
            None => None,
            Some((w, q2)) => match read_count(d, q2) {
                None => None,
                Some((c, q3)) => Some((((k, w), c), q3)),
            },
        },
    }
}

pub open spec fn read_negs(d: Seq<u8>, p: int, n: int) -> Option<(Seq<((Seq<char>, Seq<char>), u32)>, int)>
    decreases n,
{
    if n <= 0 {
        Some((Seq::empty(), p))
    } else {
        match read_negs(d, p, n - 1) {
            None => None,
            Some((ns, q)) => match read_neg(d, q) {
                None => None,
                Some((e, q2)) => Some((pput(ns, e.0, e.1), q2)),
            },
        }
    }
}

pub open spec fn read_word(d: Seq<u8>, p: int) -> Option<((Seq<char>, u32), int)> {
    match read_text(d, p) {
        None => None,
        Some((w, q)) => match read_count(d, q) {
            None => None,
            Some((c, q2)) => Some(((w, c), q2)),
        },
    }
}

pub open spec fn read_words(d: Seq<u8>, p: int, n: int) -> Option<(Seq<(Seq<char>, u32)>, int)>
    decreases n,
{
    if n <= 0 {
        Some((Seq::empty(), p))
    } else {
        match read_words(d, p, n - 1) {
            None => None,
            Some((ws, q)) => match read_word(d, q) {
                None => None,
                Some((e, q2)) => Some((put(ws, e.0, e.1), q2)),
            },
        }
    }
}

/// The model and mark a snapshot holds; `None` for anything malformed (length, checksum, magic,
/// bounds, text, or bytes left over).
pub open spec fn spec_decode_snapshot(b: Seq<u8>) -> Option<(UserView, SnapshotMark)> {
    if b.len() < 44 {
        None
    } else {
        let d = b.take(b.len() - 8);
        if spec_fnv64(d) != le64(b, b.len() - 8) || le32(d, 0) != SNAPSHOT_MAGIC {
            None
        } else {
            let mark = SnapshotMark { consumed: le64(d, 4) as u64, prefix_hash: le64(d, 12) as u64 };
            match read_keys(d, 32, le32(d, 28)) {
                None => None,
                Some((cs, p1)) => match read_count(d, p1) {
                    None => None,
                    Some((nn, p2)) => match read_negs(d, p2, nn as int) {
                        None => None,
                        Some((ns, p3)) => match read_count(d, p3) {
                            None => None,
                            Some((nw, p4)) => match read_words(d, p4, nw as int) {
                                None => None,
                                Some((ws, p5)) => if p5 == d.len() {
                                    Some(
                                        (
                                            UserView {
                                                choices: cs,
                                                neg: ns,
                                                words: ws,
                                                clock: le64(d, 20) as u64,
                                            },
                                            mark,
                                        ),
                                    )
                                } else {
                                    None
                                },
                            },
                        },
                    },
                },
            }
        }
    }
}

/// `read_text`, executable.
pub(crate) fn read_text_at(d: &[u8], p: usize) -> (r: Option<(String, usize)>)
    ensures
        match read_text(d@, p as int) {
            Some((s, q)) => r matches Some((t, q2)) && t@ == s && q2 == q,
            None => r is None,
        },
{
    if p >= d.len() {
        return None;
    }
    let n = d[p] as usize;
    if n > d.len() - p - 1 {
        return None;
    }
    let b = vstd::slice::slice_subrange(d, p + 1, p + 1 + n);
    match crate::journal::text_of(b) {
        Some(t) => {
            let mut s = String::new();
            crate::text::push_str(&mut s, t);
            Some((s, p + 1 + n))
        },
        None => None,
    }
}

/// `read_count`, executable.
pub(crate) fn read_count_at(d: &[u8], p: usize) -> (r: Option<(u32, usize)>)
    ensures
        match read_count(d@, p as int) {
            Some((c, q)) => r matches Some((c2, q2)) && c2 == c && q2 == q,
            None => r is None,
        },
{
    if p > d.len() || d.len() - p < 4 {
        return None;
    }
    let c = u32_at(d, p);
    Some((c, p + 4))
}

/// `read_choices`, executable.
pub(crate) fn read_choices_at(d: &[u8], p: usize, n: u8) -> (r: Option<(Vec<Choice>, usize)>)
    ensures
        match read_choices(d@, p as int, n as int) {
            Some((l, q)) => r matches Some((v, q2)) && list_view(v@) == l && q2 == q,
            None => r is None,
        },
{
    let mut l: Vec<Choice> = Vec::new();
    let mut q: usize = p;
    let mut i: u8 = 0;
    while i < n
        invariant
            i <= n,
            read_choices(d@, p as int, i as int) == Some((list_view(l@), q as int)),
        decreases n - i,
    {
        let (w, q1) = match read_text_at(d, q) {
            Some(x) => x,
            None => {
                proof {
                    lemma_read_choices_none_from(d@, p as int, i + 1, n as int);
                }
                return None;
            },
        };
        if q1 > d.len() || d.len() - q1 < 12 {
            proof {
                lemma_read_choices_none_from(d@, p as int, i + 1, n as int);
            }
            return None;
        }
        let count = u32_at(d, q1);
        let last = u64_at(d, q1 + 4);
        let ghost before = list_view(l@);
        l.push(Choice { word: w, count, last });
        assert(list_view(l@) =~= before.push((w@, count, last)));
        q = q1 + 12;
        i += 1;
    }
    Some((l, q))
}

proof fn lemma_read_choices_none_from(d: Seq<u8>, p: int, j: int, n: int)
    requires
        0 < j <= n,
        read_choices(d, p, j) is None,
    ensures
        read_choices(d, p, n) is None,
    decreases n - j,
{
    if j < n {
        lemma_read_choices_none_from(d, p, j + 1, n);
    }
}

pub proof fn lemma_read_keys_none(d: Seq<u8>, p: int, j: int, n: int)
    requires
        0 < j <= n,
        read_keys(d, p, j) is None,
    ensures
        read_keys(d, p, n) is None,
    decreases n - j,
{
    if j < n {
        lemma_read_keys_none(d, p, j + 1, n);
    }
}

pub proof fn lemma_read_negs_none(d: Seq<u8>, p: int, j: int, n: int)
    requires
        0 < j <= n,
        read_negs(d, p, j) is None,
    ensures
        read_negs(d, p, n) is None,
    decreases n - j,
{
    if j < n {
        lemma_read_negs_none(d, p, j + 1, n);
    }
}

pub proof fn lemma_read_words_none(d: Seq<u8>, p: int, j: int, n: int)
    requires
        0 < j <= n,
        read_words(d, p, j) is None,
    ensures
        read_words(d, p, n) is None,
    decreases n - j,
{
    if j < n {
        lemma_read_words_none(d, p, j + 1, n);
    }
}

// ---------------------------------------------------------------------------------------------
// Reading back what was written.

/// Every text of the model fits a one-byte length prefix.
pub open spec fn all_fit(v: UserView) -> bool {
    &&& forall|i: int| 0 <= i < v.choices.len() ==> fits((#[trigger] v.choices[i]).0)
    &&& forall|i: int, j: int|
        0 <= i < v.choices.len() && 0 <= j < v.choices[i].1.len() ==> fits((#[trigger] v.choices[i].1[j]).0)
    &&& forall|i: int| 0 <= i < v.neg.len() ==> fits((#[trigger] v.neg[i]).0.0) && fits(v.neg[i].0.1)
    &&& forall|i: int| 0 <= i < v.words.len() ==> fits((#[trigger] v.words[i]).0)
}

proof fn lemma_split(d: Seq<u8>, p: int, a: Seq<u8>, b: Seq<u8>)
    requires
        0 <= p,
        p + a.len() + b.len() <= d.len(),
        d.subrange(p, p + a.len() + b.len()) == a + b,
    ensures
        d.subrange(p, p + a.len()) == a,
        d.subrange(p + a.len(), p + a.len() + b.len()) == b,
{
    assert(d.subrange(p, p + a.len()) =~= (a + b).subrange(0, a.len() as int));
    assert(d.subrange(p + a.len(), p + a.len() + b.len()) =~= (a + b).subrange(
        a.len() as int,
        (a.len() + b.len()) as int,
    ));
}

proof fn lemma_read_text(d: Seq<u8>, p: int, s: Seq<char>)
    requires
        fits(s),
        0 <= p,
        p + text_field(s).len() <= d.len(),
        d.subrange(p, p + text_field(s).len()) == text_field(s),
    ensures
        read_text(d, p) == Some((s, p + text_field(s).len())),
{
    let e = encode_utf8(s);
    assert(d[p] == d.subrange(p, p + text_field(s).len())[0]);
    assert(d[p] as int == e.len());
    assert(d.subrange(p + 1, p + 1 + e.len()) =~= text_field(s).subrange(1, 1 + e.len() as int));
    assert(text_field(s).subrange(1, 1 + e.len() as int) =~= e);
    vstd::utf8::encode_utf8_valid_utf8(s);
    vstd::utf8::encode_utf8_decode_utf8(s);
}

proof fn lemma_read_count(d: Seq<u8>, p: int, c: u32)
    requires
        0 <= p,
        p + 4 <= d.len(),
        d.subrange(p, p + 4) == bytes32(c as int),
    ensures
        read_count(d, p) == Some((c, p + 4)),
{
    crate::bytes::lemma_le32_of_bytes(d, p, c as int);
}

proof fn lemma_read_choice(d: Seq<u8>, p: int, c: ChoiceV)
    requires
        fits(c.0),
        0 <= p,
        p + choice_bytes(c).len() <= d.len(),
        d.subrange(p, p + choice_bytes(c).len()) == choice_bytes(c),
    ensures
        read_choice(d, p) == Some((c, p + choice_bytes(c).len())),
{
    let t = text_field(c.0);
    let q = p + t.len();
    lemma_split(d, p, t + bytes32(c.1 as int), bytes64(c.2 as int));
    lemma_split(d, p, t, bytes32(c.1 as int));
    lemma_read_text(d, p, c.0);
    crate::bytes::lemma_le32_of_bytes(d, q, c.1 as int);
    lemma_le64_of_bytes(d, q + 4, c.2 as int);
}

proof fn lemma_list_all_fit(l: Seq<ChoiceV>)
    requires
        forall|j: int| 0 <= j < l.len() ==> fits((#[trigger] l[j]).0),
    ensures
        list_count(l) == l.len(),
    decreases l.len(),
{
    if l.len() > 0 {
        lemma_list_all_fit(l.drop_last());
    }
}

proof fn lemma_read_choices(d: Seq<u8>, p: int, l: Seq<ChoiceV>, i: int)
    requires
        0 <= i <= l.len(),
        0 <= p,
        forall|j: int| 0 <= j < l.len() ==> fits((#[trigger] l[j]).0),
        p + list_bytes(l.take(i)).len() <= d.len(),
        d.subrange(p, p + list_bytes(l.take(i)).len()) == list_bytes(l.take(i)),
    ensures
        read_choices(d, p, i) == Some((l.take(i), p + list_bytes(l.take(i)).len())),
    decreases i,
{
    if i == 0 {
        assert(l.take(0) =~= Seq::<ChoiceV>::empty());
    } else {
        let prev = l.take(i - 1);
        assert(l.take(i).drop_last() =~= prev);
        assert(l.take(i).last() == l[i - 1]);
        let a = list_bytes(prev);
        let b = choice_bytes(l[i - 1]);
        assert(list_bytes(l.take(i)) == a + b);
        lemma_split(d, p, a, b);
        lemma_read_choices(d, p, l, i - 1);
        lemma_read_choice(d, p + a.len(), l[i - 1]);
        assert(prev.push(l[i - 1]) =~= l.take(i));
    }
}

proof fn lemma_read_key(d: Seq<u8>, p: int, e: (Seq<char>, Seq<ChoiceV>))
    requires
        fits(e.0),
        e.1.len() <= 255,
        forall|j: int| 0 <= j < e.1.len() ==> fits((#[trigger] e.1[j]).0),
        0 <= p,
        p + key_entry(e).len() <= d.len(),
        d.subrange(p, p + key_entry(e).len()) == key_entry(e),
    ensures
        read_key(d, p) == Some((e, p + key_entry(e).len())),
{
    let t = text_field(e.0);
    let c = seq![list_count(e.1) as u8];
    let body = list_bytes(e.1);
    lemma_list_all_fit(e.1);
    lemma_split(d, p, t + c, body);
    lemma_split(d, p, t, c);
    lemma_read_text(d, p, e.0);
    let q = p + t.len();
    assert(d[q] == d.subrange(q, q + 1)[0]);
    assert(d[q] as int == e.1.len());
    assert(e.1.take(e.1.len() as int) =~= e.1);
    lemma_read_choices(d, q + 1, e.1, e.1.len() as int);
}

proof fn lemma_keys_all_fit(cs: Seq<(Seq<char>, Seq<ChoiceV>)>)
    requires
        forall|i: int| 0 <= i < cs.len() ==> fits((#[trigger] cs[i]).0),
    ensures
        keys_count(cs) == cs.len(),
    decreases cs.len(),
{
    if cs.len() > 0 {
        lemma_keys_all_fit(cs.drop_last());
    }
}

proof fn lemma_read_keys(d: Seq<u8>, p: int, v: UserView, i: int)
    requires
        user_wf(v),
        all_fit(v),
        0 <= i <= v.choices.len(),
        0 <= p,
        p + keys_bytes(v.choices.take(i)).len() <= d.len(),
        d.subrange(p, p + keys_bytes(v.choices.take(i)).len()) == keys_bytes(v.choices.take(i)),
    ensures
        read_keys(d, p, i) == Some((v.choices.take(i), p + keys_bytes(v.choices.take(i)).len())),
    decreases i,
{
    let cs = v.choices;
    if i == 0 {
        assert(cs.take(0) =~= Seq::<(Seq<char>, Seq<ChoiceV>)>::empty());
    } else {
        let prev = cs.take(i - 1);
        assert(cs.take(i).drop_last() =~= prev);
        assert(cs.take(i).last() == cs[i - 1]);
        let a = keys_bytes(prev);
        let b = key_entry(cs[i - 1]);
        assert(keys_bytes(cs.take(i)) == a + b);
        lemma_split(d, p, a, b);
        lemma_read_keys(d, p, v, i - 1);
        assert(fits(cs[i - 1].0));
        assert forall|j: int| 0 <= j < cs[i - 1].1.len() implies fits((#[trigger] cs[i - 1].1[j]).0) by {
            assert(fits(v.choices[i - 1].1[j].0));
        }
        lemma_read_key(d, p + a.len(), cs[i - 1]);
        assert forall|j: int| 0 <= j < prev.len() implies str_lt(#[trigger] prev[j].0, cs[i - 1].0) by {
            assert(skeys(cs)[j] == cs[j].0);
            assert(skeys(cs)[i - 1] == cs[i - 1].0);
        }
        lemma_put_last(prev, cs[i - 1].0, cs[i - 1].1);
        assert(prev.push(cs[i - 1]) =~= cs.take(i));
    }
}

proof fn lemma_read_neg(d: Seq<u8>, p: int, e: ((Seq<char>, Seq<char>), u32))
    requires
        fits(e.0.0),
        fits(e.0.1),
        0 <= p,
        p + neg_entry(e).len() <= d.len(),
        d.subrange(p, p + neg_entry(e).len()) == neg_entry(e),
    ensures
        read_neg(d, p) == Some((e, p + neg_entry(e).len())),
{
    let t1 = text_field(e.0.0);
    let t2 = text_field(e.0.1);
    lemma_split(d, p, t1 + t2, bytes32(e.1 as int));
    lemma_split(d, p, t1, t2);
    lemma_read_text(d, p, e.0.0);
    lemma_read_text(d, p + t1.len(), e.0.1);
    lemma_read_count(d, p + t1.len() + t2.len(), e.1);
}

proof fn lemma_negs_all_fit(ns: Seq<((Seq<char>, Seq<char>), u32)>)
    requires
        forall|i: int| 0 <= i < ns.len() ==> fits((#[trigger] ns[i]).0.0) && fits(ns[i].0.1),
    ensures
        neg_count(ns) == ns.len(),
    decreases ns.len(),
{
    if ns.len() > 0 {
        lemma_negs_all_fit(ns.drop_last());
    }
}

proof fn lemma_read_negs(d: Seq<u8>, p: int, v: UserView, i: int)
    requires
        user_wf(v),
        all_fit(v),
        0 <= i <= v.neg.len(),
        0 <= p,
        p + neg_bytes(v.neg.take(i)).len() <= d.len(),
        d.subrange(p, p + neg_bytes(v.neg.take(i)).len()) == neg_bytes(v.neg.take(i)),
    ensures
        read_negs(d, p, i) == Some((v.neg.take(i), p + neg_bytes(v.neg.take(i)).len())),
    decreases i,
{
    let ns = v.neg;
    if i == 0 {
        assert(ns.take(0) =~= Seq::<((Seq<char>, Seq<char>), u32)>::empty());
    } else {
        let prev = ns.take(i - 1);
        assert(ns.take(i).drop_last() =~= prev);
        assert(ns.take(i).last() == ns[i - 1]);
        let a = neg_bytes(prev);
        let b = neg_entry(ns[i - 1]);
        assert(neg_bytes(ns.take(i)) == a + b);
        lemma_split(d, p, a, b);
        lemma_read_negs(d, p, v, i - 1);
        assert(fits(ns[i - 1].0.0) && fits(ns[i - 1].0.1));
        lemma_read_neg(d, p + a.len(), ns[i - 1]);
        assert forall|j: int| 0 <= j < prev.len() implies pair_lt(#[trigger] prev[j].0, ns[i - 1].0) by {
            assert(pkeys(ns)[j] == ns[j].0);
            assert(pkeys(ns)[i - 1] == ns[i - 1].0);
        }
        lemma_pput_last(prev, ns[i - 1].0, ns[i - 1].1);
        assert(prev.push(ns[i - 1]) =~= ns.take(i));
    }
}

proof fn lemma_read_word(d: Seq<u8>, p: int, e: (Seq<char>, u32))
    requires
        fits(e.0),
        0 <= p,
        p + word_entry(e).len() <= d.len(),
        d.subrange(p, p + word_entry(e).len()) == word_entry(e),
    ensures
        read_word(d, p) == Some((e, p + word_entry(e).len())),
{
    let t = text_field(e.0);
    lemma_split(d, p, t, bytes32(e.1 as int));
    lemma_read_text(d, p, e.0);
    lemma_read_count(d, p + t.len(), e.1);
}

proof fn lemma_words_all_fit(ws: Seq<(Seq<char>, u32)>)
    requires
        forall|i: int| 0 <= i < ws.len() ==> fits((#[trigger] ws[i]).0),
    ensures
        words_count(ws) == ws.len(),
    decreases ws.len(),
{
    if ws.len() > 0 {
        lemma_words_all_fit(ws.drop_last());
    }
}

proof fn lemma_read_words(d: Seq<u8>, p: int, v: UserView, i: int)
    requires
        user_wf(v),
        all_fit(v),
        0 <= i <= v.words.len(),
        0 <= p,
        p + words_bytes(v.words.take(i)).len() <= d.len(),
        d.subrange(p, p + words_bytes(v.words.take(i)).len()) == words_bytes(v.words.take(i)),
    ensures
        read_words(d, p, i) == Some((v.words.take(i), p + words_bytes(v.words.take(i)).len())),
    decreases i,
{
    let ws = v.words;
    if i == 0 {
        assert(ws.take(0) =~= Seq::<(Seq<char>, u32)>::empty());
    } else {
        let prev = ws.take(i - 1);
        assert(ws.take(i).drop_last() =~= prev);
        assert(ws.take(i).last() == ws[i - 1]);
        let a = words_bytes(prev);
        let b = word_entry(ws[i - 1]);
        assert(words_bytes(ws.take(i)) == a + b);
        lemma_split(d, p, a, b);
        lemma_read_words(d, p, v, i - 1);
        assert(fits(ws[i - 1].0));
        lemma_read_word(d, p + a.len(), ws[i - 1]);
        assert forall|j: int| 0 <= j < prev.len() implies str_lt(#[trigger] prev[j].0, ws[i - 1].0) by {
            assert(skeys(ws)[j] == ws[j].0);
            assert(skeys(ws)[i - 1] == ws[i - 1].0);
        }
        lemma_put_last(prev, ws[i - 1].0, ws[i - 1].1);
        assert(prev.push(ws[i - 1]) =~= ws.take(i));
    }
}

#[verifier::spinoff_prover]
#[verifier::rlimit(100)]
proof fn lemma_header(v: UserView, mark: SnapshotMark)
    requires
        keys_count(v.choices) <= u32::MAX,
    ensures
        le32(snapshot_header(v, mark), 0) == SNAPSHOT_MAGIC,
        le64(snapshot_header(v, mark), 4) == mark.consumed,
        le64(snapshot_header(v, mark), 12) == mark.prefix_hash,
        le64(snapshot_header(v, mark), 20) == v.clock,
        le32(snapshot_header(v, mark), 28) == keys_count(v.choices),
        snapshot_header(v, mark).len() == 32,
{
    let h = snapshot_header(v, mark);
    lemma_field_lens(SNAPSHOT_MAGIC as int);
    lemma_field_lens(mark.consumed as int);
    lemma_field_lens(mark.prefix_hash as int);
    lemma_field_lens(v.clock as int);
    lemma_field_lens(keys_count(v.choices) as int);
    assert(h.subrange(0, 4) =~= field32(SNAPSHOT_MAGIC as int));
    assert(h.subrange(4, 12) =~= field64(mark.consumed as int));
    assert(h.subrange(12, 20) =~= field64(mark.prefix_hash as int));
    assert(h.subrange(20, 28) =~= field64(v.clock as int));
    assert(h.subrange(28, 32) =~= field32(keys_count(v.choices) as int));
    lemma_read_field32(h, 0, SNAPSHOT_MAGIC as int);
    lemma_read_field64(h, 4, mark.consumed as int);
    lemma_read_field64(h, 12, mark.prefix_hash as int);
    lemma_read_field64(h, 20, v.clock as int);
    lemma_read_field32(h, 28, keys_count(v.choices) as int);
}

/// A read inside the first part of a concatenation reads that part.
proof fn lemma_le_prefix(a: Seq<u8>, b: Seq<u8>, o: int)
    requires
        0 <= o,
        o + 8 <= a.len(),
    ensures
        le32(a + b, o) == le32(a, o),
        le64(a + b, o) == le64(a, o),
{
    assert((a + b)[o] == a[o]);
    assert((a + b)[o + 1] == a[o + 1]);
    assert((a + b)[o + 2] == a[o + 2]);
    assert((a + b)[o + 3] == a[o + 3]);
    assert((a + b)[o + 4] == a[o + 4]);
    assert((a + b)[o + 5] == a[o + 5]);
    assert((a + b)[o + 6] == a[o + 6]);
    assert((a + b)[o + 7] == a[o + 7]);
}

proof fn lemma_le32_prefix(a: Seq<u8>, b: Seq<u8>, o: int)
    requires
        0 <= o,
        o + 4 <= a.len(),
    ensures
        le32(a + b, o) == le32(a, o),
{
    assert((a + b)[o] == a[o]);
    assert((a + b)[o + 1] == a[o + 1]);
    assert((a + b)[o + 2] == a[o + 2]);
    assert((a + b)[o + 3] == a[o + 3]);
}

proof fn lemma_body_parts(v: UserView, mark: SnapshotMark)
    requires
        keys_count(v.choices) <= u32::MAX,
    ensures
        snapshot_body(v, mark).subrange(32, snapshot_body(v, mark).len() as int) == sections(v),
        le32(snapshot_body(v, mark), 0) == SNAPSHOT_MAGIC,
        le64(snapshot_body(v, mark), 4) == mark.consumed,
        le64(snapshot_body(v, mark), 12) == mark.prefix_hash,
        le64(snapshot_body(v, mark), 20) == v.clock,
        le32(snapshot_body(v, mark), 28) == keys_count(v.choices),
        snapshot_body(v, mark).len() >= 32,
{
    let h = snapshot_header(v, mark);
    lemma_header(v, mark);
    let d = snapshot_body(v, mark);
    assert(d.subrange(32, d.len() as int) =~= sections(v));
    lemma_le32_prefix(h, sections(v), 0);
    lemma_le_prefix(h, sections(v), 4);
    lemma_le_prefix(h, sections(v), 12);
    lemma_le_prefix(h, sections(v), 20);
    lemma_le32_prefix(h, sections(v), 28);
}

proof fn lemma_read_sections(d: Seq<u8>, v: UserView)
    requires
        user_wf(v),
        encodable(v),
        all_fit(v),
        d.len() >= 32,
        d.subrange(32, d.len() as int) == sections(v),
    ensures
        ({
            let p1: int = 32 + keys_bytes(v.choices).len() as int;
            let p3: int = p1 + 4 + neg_bytes(v.neg).len() as int;
            &&& read_keys(d, 32, v.choices.len() as int) == Some((v.choices, p1))
            &&& read_count(d, p1) == Some((v.neg.len() as u32, p1 + 4))
            &&& read_negs(d, p1 + 4, v.neg.len() as int) == Some((v.neg, p3))
            &&& read_count(d, p3) == Some((v.words.len() as u32, p3 + 4))
            &&& read_words(d, p3 + 4, v.words.len() as int) == Some((v.words, d.len() as int))
        }),
{
    let kb = keys_bytes(v.choices);
    let nb = neg_bytes(v.neg);
    let wb = words_bytes(v.words);
    lemma_negs_all_fit(v.neg);
    lemma_words_all_fit(v.words);
    let c2 = field32(v.neg.len() as int);
    let c3 = field32(v.words.len() as int);
    lemma_field_lens(v.neg.len() as int);
    lemma_field_lens(v.words.len() as int);
    let p1: int = 32 + kb.len() as int;
    let p2: int = p1 + 4;
    let p3: int = p2 + nb.len() as int;
    let p4: int = p3 + 4;
    assert(d.subrange(32, 32 + sections(v).len() as int) == sections(v));
    lemma_split(d, 32, kb + c2 + nb + c3, wb);
    lemma_split(d, 32, kb + c2 + nb, c3);
    lemma_split(d, 32, kb + c2, nb);
    lemma_split(d, 32, kb, c2);
    assert(v.choices.take(v.choices.len() as int) =~= v.choices);
    lemma_read_keys(d, 32, v, v.choices.len() as int);
    lemma_read_field32(d, p1, v.neg.len() as int);
    assert(v.neg.take(v.neg.len() as int) =~= v.neg);
    lemma_read_negs(d, p2, v, v.neg.len() as int);
    lemma_read_field32(d, p3, v.words.len() as int);
    assert(v.words.take(v.words.len() as int) =~= v.words);
    lemma_read_words(d, p4, v, v.words.len() as int);
}

/// Reading a snapshot gives back the model and the mark it was written with, when the model is
/// well formed, its counts fit their fields and all its texts fit a one-byte length prefix; so
/// writing what was read gives the same bytes again.
#[verifier::spinoff_prover]
pub proof fn law_snapshot_round_trip(v: UserView, mark: SnapshotMark)
    requires
        user_wf(v),
        encodable(v),
        all_fit(v),
    ensures
        spec_decode_snapshot(spec_snapshot(v, mark)) == Some((v, mark)),
        spec_snapshot(spec_decode_snapshot(spec_snapshot(v, mark)).unwrap().0, mark) == spec_snapshot(v, mark),
{
    let body = snapshot_body(v, mark);
    let b = spec_snapshot(v, mark);
    lemma_keys_all_fit(v.choices);
    lemma_body_parts(v, mark);
    lemma_field_lens(v.neg.len() as int);
    lemma_field_lens(v.words.len() as int);
    lemma_negs_all_fit(v.neg);
    lemma_words_all_fit(v.words);
    assert(sections(v).len() >= 8);
    let n = body.len() as int;
    let sum = spec_fnv64(body);
    lemma_field_lens(sum as int);
    assert(b.len() == n + 8);
    let d = b.take(b.len() - 8);
    assert(d =~= body);
    assert(b.subrange(n, n + 8) =~= field64(sum as int));
    lemma_read_field64(b, n, sum as int);
    assert(le64(b, b.len() - 8) == sum);
    lemma_read_sections(body, v);
    let p1: int = 32 + keys_bytes(v.choices).len() as int;
    let p3: int = p1 + 4 + neg_bytes(v.neg).len() as int;
    assert(read_keys(d, 32, le32(d, 28)) == Some((v.choices, p1)));
    assert(read_count(d, p1) == Some((v.neg.len() as u32, p1 + 4)));
    assert(read_negs(d, p1 + 4, v.neg.len() as int) == Some((v.neg, p3)));
    assert(read_count(d, p3) == Some((v.words.len() as u32, p3 + 4)));
    assert(read_words(d, p3 + 4, v.words.len() as int) == Some((v.words, d.len() as int)));
    let m = SnapshotMark { consumed: le64(d, 4) as u64, prefix_hash: le64(d, 12) as u64 };
    assert(m == mark);
    assert(le64(d, 20) as u64 == v.clock);
}

/// A snapshot's layout: it opens with the magic number, then the mark's consumed length and
/// journal-prefix hash (little-endian), and closes with the FNV-1a-64 of all bytes before the
/// last eight.
pub proof fn law_snapshot_layout(v: UserView, mark: SnapshotMark)
    ensures
        spec_snapshot(v, mark).len() >= 44,
        spec_snapshot(v, mark).subrange(0, 4) == bytes32(SNAPSHOT_MAGIC as int),
        spec_snapshot(v, mark).subrange(4, 12) == bytes64(mark.consumed as int),
        spec_snapshot(v, mark).subrange(12, 20) == bytes64(mark.prefix_hash as int),
        spec_snapshot(v, mark).subrange(
            spec_snapshot(v, mark).len() - 8,
            spec_snapshot(v, mark).len() as int,
        ) == bytes64(
            spec_fnv64(spec_snapshot(v, mark).take(spec_snapshot(v, mark).len() - 8)) as int,
        ),
{
    lemma_field_lens(SNAPSHOT_MAGIC as int);
    lemma_field_lens(mark.consumed as int);
    lemma_field_lens(mark.prefix_hash as int);
    lemma_field_lens(v.clock as int);
    lemma_field_lens(keys_count(v.choices) as int);
    lemma_field_lens(neg_count(v.neg) as int);
    lemma_field_lens(words_count(v.words) as int);
    let h = snapshot_header(v, mark);
    let body = snapshot_body(v, mark);
    let b = spec_snapshot(v, mark);
    let f = field64(spec_fnv64(body) as int);
    lemma_field_lens(spec_fnv64(body) as int);
    assert(h.len() == 32);
    assert(sections(v).len() >= 8);
    assert(b.take(b.len() - 8) =~= body);
    assert(b.subrange(b.len() - 8, b.len() as int) =~= f);
    assert(b.subrange(0, 4) =~= h.subrange(0, 4));
    assert(b.subrange(4, 12) =~= h.subrange(4, 12));
    assert(b.subrange(12, 20) =~= h.subrange(12, 20));
    assert(h.subrange(0, 4) =~= field32(SNAPSHOT_MAGIC as int));
    assert(h.subrange(4, 12) =~= field64(mark.consumed as int));
    assert(h.subrange(12, 20) =~= field64(mark.prefix_hash as int));
    assert(field32(SNAPSHOT_MAGIC as int) == bytes32(SNAPSHOT_MAGIC as int)) by {
        reveal(field32);
    }
    assert(field64(mark.consumed as int) == bytes64(mark.consumed as int)) by {
        reveal(field64);
    }
    assert(field64(mark.prefix_hash as int) == bytes64(mark.prefix_hash as int)) by {
        reveal(field64);
    }
    assert(f == bytes64(spec_fnv64(body) as int)) by {
        reveal(field64);
    }
}

// ---------------------------------------------------------------------------------------------
// A changed byte never goes unnoticed.

/// Multiplying by the FNV prime modulo 2^64 loses nothing: the prime is odd, so it has an
/// inverse (0xce96_5057_aff6_957b).
proof fn lemma_fnv_mul_injective(a: u64, b: u64)
    requires
        (a as int * 0x0000_0100_0000_01b3) % 0x1_0000_0000_0000_0000 == (b as int * 0x0000_0100_0000_01b3)
            % 0x1_0000_0000_0000_0000,
    ensures
        a == b,
{
    let m: int = 0x1_0000_0000_0000_0000;
    let p: int = 0x0000_0100_0000_01b3;
    let q: int = 0xce96_5057_aff6_957b;
    let k: int = 887285111055;
    let x = a as int * p;
    let y = b as int * p;
    vstd::arithmetic::div_mod::lemma_fundamental_div_mod(x, m);
    vstd::arithmetic::div_mod::lemma_fundamental_div_mod(y, m);
    let q1 = x / m;
    let q2 = y / m;
    let r = x % m;
    let dd = a as int - b as int;
    assert(dd * p == m * (q1 - q2)) by (nonlinear_arith)
        requires
            x == a as int * p,
            y == b as int * p,
            x == m * q1 + r,
            y == m * q2 + r,
            dd == a as int - b as int,
    ;
    assert(p * q == 1 + k * m);
    let t = (q1 - q2) * q - dd * k;
    assert(dd == m * t) by (nonlinear_arith)
        requires
            dd * p == m * (q1 - q2),
            p * q == 1 + k * m,
            t == (q1 - q2) * q - dd * k,
    ;
    assert(dd == 0) by (nonlinear_arith)
        requires
            dd == m * t,
            -m < dd < m,
            m > 0,
    ;
}

/// One FNV step tells different states apart, and different bytes apart.
proof fn lemma_fnv_step_apart(h1: u64, h2: u64, c1: u8, c2: u8)
    requires
        h1 != h2 || c1 != c2,
        h1 == h2 || c1 == c2,
    ensures
        fnv64_step(h1, c1) != fnv64_step(h2, c2),
{
    let x1 = h1 ^ (c1 as u64);
    let x2 = h2 ^ (c2 as u64);
    assert(x1 != x2) by (bit_vector)
        requires
            x1 == h1 ^ (c1 as u64),
            x2 == h2 ^ (c2 as u64),
            h1 != h2 || c1 != c2,
            h1 == h2 || c1 == c2,
    ;
    if fnv64_step(h1, c1) == fnv64_step(h2, c2) {
        lemma_fnv_mul_injective(x1, x2);
    }
}

/// Changing one byte changes the FNV-1a-64 hash.
proof fn lemma_fnv_one_change(d: Seq<u8>, i: int, y: u8)
    requires
        0 <= i < d.len(),
        d[i] != y,
    ensures
        spec_fnv64(d.update(i, y)) != spec_fnv64(d),
    decreases d.len(),
{
    let e = d.update(i, y);
    assert(e.last() == if i == d.len() - 1 { y } else { d.last() });
    if i == d.len() - 1 {
        assert(e.drop_last() =~= d.drop_last());
        lemma_fnv_step_apart(spec_fnv64(d.drop_last()), spec_fnv64(d.drop_last()), d.last(), y);
    } else {
        assert(e.drop_last() =~= d.drop_last().update(i, y));
        lemma_fnv_one_change(d.drop_last(), i, y);
        lemma_fnv_step_apart(spec_fnv64(e.drop_last()), spec_fnv64(d.drop_last()), d.last(), d.last());
    }
}

/// A little-endian `u64` read over bytes that differ in exactly one place differs.
proof fn lemma_le64_one_change(b: Seq<u8>, o: int, i: int, y: u8)
    requires
        0 <= o,
        o <= i < o + 8,
        o + 8 <= b.len(),
        b[i] != y,
    ensures
        le64(b.update(i, y), o) != le64(b, o),
{
    let c = b.update(i, y);
    assert forall|j: int| o <= j < o + 8 && j != i implies c[j] == b[j] by {}
    assert(c[i] == y);
}

/// Snapshots carry a checksum over everything before it: changing any single byte of a
/// snapshot (flipping any bits of it) makes reading it fail.
pub proof fn law_snapshot_detects_corruption(v: UserView, mark: SnapshotMark, i: int, x: u8)
    requires
        0 <= i < spec_snapshot(v, mark).len(),
        x != 0,
    ensures
        spec_decode_snapshot(spec_snapshot(v, mark).update(i, spec_snapshot(v, mark)[i] ^ x)) is None,
{
    law_snapshot_layout(v, mark);
    let b = spec_snapshot(v, mark);
    let n = b.len() as int;
    let y = b[i] ^ x;
    let bi = b[i];
    assert(y != bi) by (bit_vector)
        requires
            y == bi ^ x,
            x != 0,
    ;
    let c = b.update(i, y);
    let body = b.take(n - 8);
    let h = spec_fnv64(body);
    lemma_le64_of_bytes(b, n - 8, h as int);
    if i < n - 8 {
        assert(c.take(n - 8) =~= body.update(i, y));
        lemma_fnv_one_change(body, i, y);
        assert(c.subrange(n - 8, n) =~= b.subrange(n - 8, n));
        lemma_le64_of_bytes(c, n - 8, h as int);
    } else {
        assert(c.take(n - 8) =~= body);
        lemma_le64_one_change(b, n - 8, i, y);
    }
}

} // verus!
