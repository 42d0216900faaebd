//! Section kinds of the data file.
use vstd::prelude::*;

verus! {

pub const ALPH: [u8; 4] = [0x41, 0x4C, 0x50, 0x48];
pub const TRIE: [u8; 4] = [0x54, 0x52, 0x49, 0x45];
pub const WREC: [u8; 4] = [0x57, 0x52, 0x45, 0x43];
pub const STRS: [u8; 4] = [0x53, 0x54, 0x52, 0x53];
pub const RULE: [u8; 4] = [0x52, 0x55, 0x4C, 0x45];
pub const CHNK: [u8; 4] = [0x43, 0x48, 0x4E, 0x4B];
pub const BIGR: [u8; 4] = [0x42, 0x49, 0x47, 0x52];
pub const CHLM: [u8; 4] = [0x43, 0x48, 0x4C, 0x4D];
pub const PHRS: [u8; 4] = [0x50, 0x48, 0x52, 0x53];
pub const DIAC: [u8; 4] = [0x44, 0x49, 0x41, 0x43];
pub const REGN: [u8; 4] = [0x52, 0x45, 0x47, 0x4E];
pub const PARM: [u8; 4] = [0x50, 0x41, 0x52, 0x4D];
pub const META: [u8; 4] = [0x4D, 0x45, 0x54, 0x41];

/// Required in v1 (BIGR and DIAC are optional).
pub const REQUIRED: [[u8; 4]; 11] = [ALPH, TRIE, WREC, STRS, RULE, CHNK, CHLM, PHRS, REGN, PARM, META];

} // verus!
