//! Character 5-gram language model over alphabet codes: fingerprints and table slots.
//!
//! The table is open addressing (linear probing, power-of-two capacity) of `{ fp, q, order }`.
//! `fp` is the FNV-1a-32 hash of `[order, context codes…, next code]` (0 is reserved for empty
//! slots).
use vstd::prelude::*;
use crate::data::records::ChlmEntry;

verus! {

/// Beginning-of-word symbol (after the 42 letter codes).
pub const BOS: u8 = 43;
/// End-of-word symbol.
pub const EOS: u8 = 44;
/// Maximum n-gram order stored.
pub const ORDER: usize = 5;

pub open spec fn fnv32_step(h: u32, b: u8) -> u32 {
    (h ^ (b as u32)).wrapping_mul(0x0100_0193)
}

/// FNV-1a-32 over `bytes`, from `h`.
pub open spec fn fnv32_from(h: u32, bytes: Seq<u8>) -> u32
    decreases bytes.len(),
{
    if bytes.len() == 0 {
        h
    } else {
        fnv32_step(fnv32_from(h, bytes.drop_last()), bytes.last())
    }
}

/// The fingerprint of an n-gram: FNV-1a-32 of its length then its codes, with 0 mapped to 1.
pub open spec fn spec_fingerprint(codes: Seq<u8>) -> u32 {
    let h = fnv32_from(0x811C_9DC5, seq![codes.len() as u8] + codes);
    if h == 0 {
        1
    } else {
        h
    }
}

/// FNV-1a-32 fingerprint of an n-gram key (`order` then the codes). Never returns 0.
pub fn fingerprint(codes: &[u8]) -> (r: u32)
    ensures
        r == spec_fingerprint(codes@),
        r != 0,
{
    let ghost all = seq![codes@.len() as u8] + codes@;
    let mut h: u32 = 0x811C_9DC5;
    h = (h ^ (codes.len() as u8 as u32)).wrapping_mul(0x0100_0193);
    assert(all.take(1).drop_last() =~= Seq::<u8>::empty());
    assert(all.take(1).last() == codes@.len() as u8);
    assert(fnv32_from(0x811C_9DC5, Seq::<u8>::empty()) == 0x811C_9DC5u32);
    assert(h == fnv32_from(0x811C_9DC5, all.take(1)));
    let mut i: usize = 0;
    while i < codes.len()
        invariant
            i <= codes@.len(),
            all == seq![codes@.len() as u8] + codes@,
            h == fnv32_from(0x811C_9DC5, all.take(i + 1)),
        decreases codes@.len() - i,
    {
        assert(all.take(i + 2).drop_last() =~= all.take(i + 1));
        assert(all.take(i + 2).last() == codes@[i as int]);
        h = (h ^ (codes[i] as u32)).wrapping_mul(0x0100_0193);
        i += 1;
    }
    assert(all.take(codes@.len() + 1int) =~= all);
    if h == 0 {
        1
    } else {
        h
    }
}

/// Slot index for `fp` in a table of `capacity` (a power of two).
pub fn slot(fp: u32, capacity: usize) -> (r: usize)
    requires
        capacity >= 1,
    ensures
        r == (fp as usize) & ((capacity - 1) as usize),
{
    (fp as usize) & (capacity - 1)
}

/// `n` is a power of two.
pub open spec fn is_pow2(n: nat) -> bool
    decreases n,
{
    if n == 1 {
        true
    } else if n == 0 || n % 2 == 1 {
        false
    } else {
        is_pow2(n / 2)
    }
}

fn power_of_two(n: usize) -> (r: bool)
    ensures
        r == is_pow2(n as nat),
{
    let mut m = n;
    while m > 1 && m % 2 == 0
        invariant
            is_pow2(n as nat) == is_pow2(m as nat),
        decreases m,
    {
        m = m / 2;
    }
    m == 1
}

/// Read-only view of the n-gram table.
#[derive(Clone, Copy)]
pub struct CharLm<'a> {
    table: &'a [ChlmEntry],
}

impl<'a> CharLm<'a> {
    /// The table the model reads.
    pub closed spec fn spec_table(&self) -> Seq<ChlmEntry> {
        self.table@
    }

    /// Wrap a table; `None` when it is empty or its capacity is not a power of two.
    pub fn new(table: &'a [ChlmEntry]) -> (r: Option<Self>)
        ensures
            r is Some <==> (table@.len() >= 1 && is_pow2(table@.len())),
            r matches Some(lm) ==> lm.spec_table() == table@,
    {
        if table.len() >= 1 && power_of_two(table.len()) {
            Some(CharLm { table })
        } else {
            None
        }
    }

    /// Number of slots.
    pub fn capacity(&self) -> (r: usize)
        ensures
            r == self.spec_table().len(),
    {
        self.table.len()
    }
}

} // verus!
