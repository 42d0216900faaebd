//! Fixed identities of the text service, and their registry text.
use vstd::prelude::*;
use crate::text::{push_char, push_str};

verus! {

/// Text service CLSID {8A4B9277-1E2E-45E0-92A2-83FED833D8BF}
pub const CLSID_TIP: u128 = 0x8A4B9277_1E2E_45E0_92A2_83FED833D8BF;
/// Profile GUID {90D49398-54D3-4F08-9C15-0B38D0820A87}
pub const GUID_PROFILE: u128 = 0x90D49398_54D3_4F08_9C15_0B38D0820A87;
/// Display attribute: composing preview {3F94CF8A-3689-49C9-9597-18F7435E0FE8}
pub const GUID_DISPLAY_ATTR_INPUT: u128 = 0x3F94CF8A_3689_49C9_9597_18F7435E0FE8;
/// Display attribute: tashkeel editing {5AD3E153-E0D0-41BA-8D1E-E8B312230016}
pub const GUID_DISPLAY_ATTR_TASHKEEL: u128 = 0x5AD3E153_E0D0_41BA_8D1E_E8B312230016;
/// Private compartment: engine mode {62E8BEAD-7142-47C3-9555-656FC8A9E8FA}
pub const GUID_COMPARTMENT_MODE: u128 = 0x62E8BEAD_7142_47C3_9555_656FC8A9E8FA;
/// Preserved key: Arabic/Latin toggle {35746905-7855-46BE-A409-AF7CC35C8FF7}
pub const GUID_PRESERVED_TOGGLE: u128 = 0x35746905_7855_46BE_A409_AF7CC35C8FF7;
/// MSI UpgradeCode {C71F4AAE-43FF-47DA-B6F0-582B0611BAF6}
pub const MSI_UPGRADE_CODE: u128 = 0xC71F4AAE_43FF_47DA_B6F0_582B0611BAF6;
/// Reserved (reconversion function provider) {51D93195-3C9E-4C04-BDE1-419D15F1015C}
pub const GUID_RESERVED_RECONVERSION: u128 = 0x51D93195_3C9E_4C04_BDE1_419D15F1015C;

/// The single LANGID the profile is registered under: ar-SA.
pub const LANGID: u16 = 0x0401;

/// Every Arabic LANGID an earlier build registered the profile under; unregistration removes
/// the profile from all of them.
pub const LEGACY_LANGIDS: [u16; 16] = [
    0x0401, 0x0801, 0x0C01, 0x1001, 0x1401, 0x1801, 0x1C01, 0x2001, 0x2401, 0x2801, 0x2C01, 0x3001,
    0x3401, 0x3801, 0x3C01, 0x4001,
];

/// `dwExtraInfo` tag for re-injected keys: "T3AR".
pub const REINJECT_MAGIC: usize = 0x5433_4152;

/// Upper-case hex digit `d` (0..16).
pub open spec fn hex_char(d: int) -> char {
    if d < 10 {
        (48 + d) as char
    } else {
        (55 + d) as char
    }
}

/// The last `n` hex digits of `g`, most significant first.
pub open spec fn hex_digits(g: nat, n: nat) -> Seq<char>
    decreases n,
{
    if n == 0 {
        Seq::empty()
    } else {
        hex_digits(g / 16, (n - 1) as nat).push(hex_char((g % 16) as int))
    }
}

fn push_hex(s: &mut String, g: u128, n: u32)
    ensures
        final(s)@ == old(s)@ + hex_digits(g as nat, n as nat),
    decreases n,
{
    if n > 0 {
        push_hex(s, g / 16, n - 1);
        let d = (g % 16) as u8;
        let c = if d < 10 {
            (48u8 + d) as char
        } else {
            (55u8 + d) as char
        };
        assert(c == hex_char((g % 16) as int));
        push_char(s, c);
        assert(final(s)@ =~= old(s)@ + hex_digits(g as nat, n as nat));
    }
}

/// Registry text of a GUID: `{XXXXXXXX-XXXX-XXXX-XXXX-XXXXXXXXXXXX}` over its 32 hex digits.
pub open spec fn spec_guid_string(g: u128) -> Seq<char> {
    let h = hex_digits(g as nat, 32);
    seq!['{'] + h.subrange(0, 8) + seq!['-'] + h.subrange(8, 12) + seq!['-'] + h.subrange(12, 16)
        + seq!['-'] + h.subrange(16, 20) + seq!['-'] + h.subrange(20, 32) + seq!['}']
}

proof fn lemma_hex_len(g: nat, n: nat)
    ensures
        hex_digits(g, n).len() == n,
    decreases n,
{
    if n > 0 {
        lemma_hex_len(g / 16, (n - 1) as nat);
    }
}

/// Format a GUID as registry text `{XXXXXXXX-XXXX-XXXX-XXXX-XXXXXXXXXXXX}`.
pub fn guid_string(g: u128) -> (r: String)
    ensures
        r@ == spec_guid_string(g),
{
    let mut h = String::new();
    push_hex(&mut h, g, 32);
    proof {
        lemma_hex_len(g as nat, 32);
    }
    let hv = crate::text::chars_of(h.as_str());
    let mut out = String::new();
    push_char(&mut out, '{');
    let mut i: usize = 0;
    while i < 32
        invariant
            i <= 32,
            hv@ == hex_digits(g as nat, 32),
            hv@.len() == 32,
            out@ == seq!['{'] + dashed(hv@, i as int),
        decreases 32 - i,
    {
        if i == 8 || i == 12 || i == 16 || i == 20 {
            push_char(&mut out, '-');
        }
        push_char(&mut out, hv[i]);
        proof {
            assert(dashed(hv@, i + 1) == dashed(hv@, i as int) + (if i == 8 || i == 12 || i == 16 || i == 20 { seq!['-'] } else { Seq::<char>::empty() }) + seq![hv@[i as int]]);
        }
        assert(out@ =~= seq!['{'] + dashed(hv@, i + 1));
        i += 1;
    }
    push_char(&mut out, '}');
    let ghost hh = hv@;
    assert(dashed(hh, 32) =~= hh.subrange(0, 8) + seq!['-'] + hh.subrange(8, 12) + seq!['-'] + hh.subrange(12, 16)
        + seq!['-'] + hh.subrange(16, 20) + seq!['-'] + hh.subrange(20, 32)) by {
        lemma_dashed(hh);
    }
    assert(out@ =~= spec_guid_string(g));
    out
}

/// A dash goes before digit `k`.
pub open spec fn is_dash_pos(k: int) -> bool {
    k == 8 || k == 12 || k == 16 || k == 20
}

/// The first `i` digits with a dash before digits 8, 12, 16 and 20.
pub open spec fn dashed(h: Seq<char>, i: int) -> Seq<char>
    decreases i,
{
    if i <= 0 {
        Seq::empty()
    } else {
        dashed(h, i - 1) + (if is_dash_pos(i - 1) {
            seq!['-']
        } else {
            Seq::empty()
        }) + seq![h[i - 1]]
    }
}

proof fn lemma_dashed_plain(h: Seq<char>, a: int, i: int)
    requires
        0 <= a <= i <= h.len(),
        forall|k: int| a <= k < i ==> !#[trigger] is_dash_pos(k),
    ensures
        dashed(h, i) == dashed(h, a) + h.subrange(a, i),
    decreases i - a,
{
    if i > a {
        lemma_dashed_plain(h, a, i - 1);
        assert(!is_dash_pos(i - 1));
        assert(dashed(h, a) + h.subrange(a, i - 1) + seq![h[i - 1]] =~= dashed(h, a) + h.subrange(a, i));
    } else {
        assert(h.subrange(a, i) =~= Seq::<char>::empty());
        assert(dashed(h, a) + h.subrange(a, i) =~= dashed(h, a));
    }
}

proof fn lemma_dashed(h: Seq<char>)
    requires
        h.len() == 32,
    ensures
        dashed(h, 32) == h.subrange(0, 8) + seq!['-'] + h.subrange(8, 12) + seq!['-'] + h.subrange(12, 16)
            + seq!['-'] + h.subrange(16, 20) + seq!['-'] + h.subrange(20, 32),
{
    lemma_dashed_plain(h, 0, 8);
    assert(dashed(h, 0) =~= Seq::<char>::empty());
    assert(dashed(h, 9) == dashed(h, 8) + seq!['-'] + seq![h[8]]);
    lemma_dashed_plain(h, 9, 12);
    assert(dashed(h, 13) == dashed(h, 12) + seq!['-'] + seq![h[12]]);
    lemma_dashed_plain(h, 13, 16);
    assert(dashed(h, 17) == dashed(h, 16) + seq!['-'] + seq![h[16]]);
    lemma_dashed_plain(h, 17, 20);
    assert(dashed(h, 21) == dashed(h, 20) + seq!['-'] + seq![h[20]]);
    lemma_dashed_plain(h, 21, 32);
    assert(dashed(h, 32) =~= h.subrange(0, 8) + seq!['-'] + h.subrange(8, 12) + seq!['-'] + h.subrange(12, 16)
        + seq!['-'] + h.subrange(16, 20) + seq!['-'] + h.subrange(20, 32));
}

} // verus!
