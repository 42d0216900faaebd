//! Alignment steps of a transliteration path, the position set of a chunk, and the doubled
//! chunks that may be read as one geminated letter.
use vstd::prelude::*;
use crate::search::is_vowel_sym;
use crate::seed::{POS_F, POS_I, POS_M};

verus! {

/// One aligned chunk of the winning path: the Latin symbols read, the Arabic letter codes
/// written and the rule's flags.
#[derive(Clone, Debug, PartialEq)]
pub struct Step {
    pub latin: Vec<char>,
    pub arabic: Vec<u8>,
    pub flags: u8,
}

/// The positions of the chunk `start..end` of a word of `n` symbols: initial when it starts
/// the word, final when it ends it, medial when it does neither.
pub open spec fn spec_pos_set(start: int, end: int, n: int) -> u8 {
    if start == 0 && end == n {
        POS_I | POS_F
    } else if start == 0 {
        POS_I
    } else if end == n {
        POS_F
    } else {
        POS_M
    }
}

pub fn pos_set(start: usize, end: usize, n: usize) -> (r: u8)
    ensures
        r == spec_pos_set(start as int, end as int, n as int),
{
    assert((0u8 | 1u8) == 1u8 && (1u8 | 4u8) == 5u8 && (0u8 | 4u8) == 4u8) by (bit_vector);
    let mut p: u8 = 0;
    if start == 0 {
        p = p | POS_I;
    }
    if end == n {
        p = p | POS_F;
    }
    if p == 0 {
        p = POS_M;
    }
    p
}

/// The half of `chunk` when it is one run of consonants written twice (`ll`, `shsh`), which
/// may be read as that run once, geminated.
pub open spec fn spec_doubled_half(chunk: Seq<char>) -> Option<int> {
    let k = chunk.len() as int;
    let half = k / 2;
    if k % 2 == 0 && k >= 2 && chunk.take(half) == chunk.skip(half) && forall|i: int|
        0 <= i < half ==> !is_vowel_sym(#[trigger] chunk[i]) && chunk[i] != '\'' {
        Some(half)
    } else {
        None
    }
}

pub fn doubled_half(chunk: &[char]) -> (r: Option<usize>)
    ensures
        r matches Some(h) ==> spec_doubled_half(chunk@) == Some(h as int),
        r is None ==> spec_doubled_half(chunk@) is None,
{
    let k = chunk.len();
    let half = k / 2;
    if k % 2 != 0 || k < 2 {
        return None;
    }
    let mut i: usize = 0;
    while i < half
        invariant
            i <= half,
            half == k / 2,
            k == chunk@.len(),
            k % 2 == 0,
            forall|j: int| 0 <= j < i ==> chunk@[j] == chunk@[j + half] && !is_vowel_sym(
                #[trigger] chunk@[j],
            ) && chunk@[j] != '\'',
        decreases half - i,
    {
        let c = chunk[i];
        if c != chunk[i + half] || c == 'a' || c == 'e' || c == 'i' || c == 'o' || c == 'u' || c
            == '\'' {
            proof {
                if c != chunk@[i + half] {
                    assert(chunk@.take(half as int)[i as int] != chunk@.skip(half as int)[i as int]);
                }
            }
            return None;
        }
        i += 1;
    }
    assert(chunk@.take(half as int) =~= chunk@.skip(half as int));
    Some(half)
}

} // verus!
