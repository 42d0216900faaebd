//! Global hotkey parsing (`general.global_hotkey`).
use vstd::prelude::*;
use crate::config::{chord_parts, chord_parts_of, lower_str};
use crate::normalize::{ascii_digit, ascii_upper};
use crate::text::{all_digits, chars_of, digits_value, eq_lit, is_digit, push_chars, push_str, spec_trim, split_chars, split_on, trim_chars};

verus! {

#[derive(Clone, Copy, Debug, PartialEq, Eq, Structural)]
pub struct HotkeySpec {
    pub ctrl: bool,
    pub alt: bool,
    pub shift: bool,
    pub win: bool,
    /// Windows virtual-key code of the main key.
    pub vk: u16,
}

/// ASCII upper case of `c`.
pub open spec fn upper_of(c: char) -> char {
    if 'a' <= c <= 'z' {
        ((c as u32) - 32) as char
    } else {
        c
    }
}

pub open spec fn upper_str(s: Seq<char>) -> Seq<char> {
    s.map_values(|c: char| upper_of(c))
}

fn upper_chars(v: &[char]) -> (r: Vec<char>)
    ensures
        r@ == upper_str(v@),
{
    let mut r: Vec<char> = Vec::new();
    let mut i: usize = 0;
    while i < v.len()
        invariant
            i <= v@.len(),
            r@ =~= upper_str(v@.take(i as int)),
        decreases v@.len() - i,
    {
        let c = v[i];
        let u = if 'a' <= c && c <= 'z' {
            let b = (c as u32) - 32;
            let r = (b as u8) as char;
            assert(r == ((c as u32) - 32) as char);
            r
        } else {
            c
        };
        r.push(u);
        i += 1;
    }
    assert(v@.take(v@.len() as int) =~= v@);
    r
}

/// What `u16::from_str` makes of `s`: an optional `+`, then one or more decimal digits, at most
/// 65535.
pub open spec fn spec_parse_u16(s: Seq<char>) -> Option<int> {
    let d = if s.len() > 0 && s[0] == '+' { s.skip(1) } else { s };
    if d.len() == 0 || !all_digits(d) || digits_value(d) > 65535 {
        None
    } else {
        Some(digits_value(d) as int)
    }
}

fn parse_u16(s: &[char]) -> (r: Option<u16>)
    ensures
        match r {
            Some(n) => spec_parse_u16(s@) == Some(n as int),
            None => spec_parse_u16(s@) is None,
        },
{
    let n = s.len();
    let start: usize = if n > 0 && s[0] == '+' { 1 } else { 0 };
    let ghost d = if s@.len() > 0 && s@[0] == '+' { s@.skip(1) } else { s@ };
    assert(d =~= s@.subrange(start as int, n as int));
    if start == n {
        return None;
    }
    let mut v: u32 = 0;
    let mut i: usize = start;
    while i < n
        invariant
            start <= i <= n,
            n == s@.len(),
            d =~= s@.subrange(start as int, n as int),
            d == (if s@.len() > 0 && s@[0] == '+' { s@.skip(1) } else { s@ }),
            forall|j: int| 0 <= j < i - start ==> is_digit(#[trigger] d[j]),
            v == digits_value(d.take(i - start)),
            v <= 65535,
        decreases n - i,
    {
        let c = s[i];
        if !('0' <= c && c <= '9') {
            let ghost j: int = i - start;
            assert(!is_digit(d[j]));
            assert(!all_digits(d));
            return None;
        }
        assert(d.take(i - start + 1).drop_last() =~= d.take(i - start));
        let nv = 10 * v + (c as u32 - 48);
        if nv > 65535 {
            proof {
                if all_digits(d) {
                    crate::text::lemma_digits_prefix_pub(d, i - start + 1);
                }
            }
            return None;
        }
        v = nv;
        i += 1;
    }
    assert(d.take(n - start) =~= d);
    Some(v as u16)
}

/// The virtual-key code of key name `key`: letters and digits are their ASCII codes, F1–F24,
/// Space, Tab, Enter and the backquote.
/// F1–F24.
pub open spec fn function_key(k: Seq<char>) -> Option<u16> {
    if k.len() >= 1 && k[0] == 'F' {
        match spec_parse_u16(k.skip(1)) {
            Some(n) => if 1 <= n <= 24 {
                Some((0x70 + n - 1) as u16)
            } else {
                None
            },
            None => None,
        }
    } else {
        None
    }
}

pub open spec fn spec_vk_of(key: Seq<char>) -> Option<u16> {
    let k = upper_str(key);
    if k.len() == 1 && (ascii_upper(k[0]) || ascii_digit(k[0])) {
        Some(k[0] as u16)
    } else if function_key(k) is Some {
        function_key(k)
    } else if k == "SPACE"@ {
        Some(0x20)
    } else if k == "TAB"@ {
        Some(0x09)
    } else if k == "ENTER"@ {
        Some(0x0D)
    } else if k == "`"@ || k == "BACKQUOTE"@ {
        Some(0xC0)
    } else {
        None
    }
}

fn vk_of(key: &[char]) -> (r: Option<u16>)
    ensures
        r == spec_vk_of(key@),
{
    let k = upper_chars(key);
    if k.len() == 1 && (('A' <= k[0] && k[0] <= 'Z') || ('0' <= k[0] && k[0] <= '9')) {
        return Some(k[0] as u32 as u16);
    }
    if k.len() >= 1 && k[0] == 'F' {
        let rest = vstd::slice::slice_subrange(k.as_slice(), 1, k.len());
        assert(rest@ =~= k@.skip(1));
        if let Some(n) = parse_u16(rest) {
            if 1 <= n && n <= 24 {
                return Some(0x70 + n - 1);
            }
        }
    }
    let ks = k.as_slice();
    if eq_lit(ks, "SPACE") {
        Some(0x20)
    } else if eq_lit(ks, "TAB") {
        Some(0x09)
    } else if eq_lit(ks, "ENTER") {
        Some(0x0D)
    } else if eq_lit(ks, "`") || eq_lit(ks, "BACKQUOTE") {
        Some(0xC0)
    } else {
        None
    }
}

/// The modifier flags named so far, or the first name that is no modifier.
pub open spec fn mods_of(mods: Seq<Seq<char>>, k: int) -> Result<(bool, bool, bool, bool), Seq<char>>
    decreases k,
{
    if k <= 0 {
        Ok((false, false, false, false))
    } else {
        match mods_of(mods, k - 1) {
            Err(e) => Err(e),
            Ok((c, a, s, w)) => {
                let m = mods[k - 1];
                if m == "ctrl"@ || m == "control"@ {
                    Ok((true, a, s, w))
                } else if m == "alt"@ {
                    Ok((c, true, s, w))
                } else if m == "shift"@ {
                    Ok((c, a, true, w))
                } else if m == "win"@ || m == "windows"@ {
                    Ok((c, a, s, true))
                } else {
                    Err("unknown modifier '"@ + m + "'"@)
                }
            },
        }
    }
}

/// The hotkey `s` names, or why it names none.
pub open spec fn spec_parse(s: Seq<char>) -> Result<HotkeySpec, Seq<char>> {
    let raw = split_on(s, '+').map_values(|p: Seq<char>| spec_trim(p));
    let parts = chord_parts(s);
    let mods = parts.drop_last();
    match mods_of(mods, mods.len() as int) {
        Err(e) => Err(e),
        Ok((c, a, sh, w)) => if !(c || a || w) {
            Err("hotkey needs Ctrl, Alt or Win"@)
        } else {
            match spec_vk_of(raw.last()) {
                None => Err("unknown key '"@ + raw.last() + "'"@),
                Some(vk) => Ok(HotkeySpec { ctrl: c, alt: a, shift: sh, win: w, vk }),
            }
        },
    }
}

proof fn lemma_mods_err_stays(mods: Seq<Seq<char>>, k: int, j: int)
    requires
        0 <= k <= j,
        mods_of(mods, k) is Err,
    ensures
        mods_of(mods, j) == mods_of(mods, k),
    decreases j - k,
{
    if j > k {
        lemma_mods_err_stays(mods, k, j - 1);
    }
}

/// Parse `"Ctrl+Alt+A"`, `"Win+Shift+Space"`, `"Ctrl+Alt+F9"`… Modifiers are case-insensitive; at
/// least one of Ctrl, Alt or Win is required (bare keys would hijack typing).
pub fn parse(s: &str) -> (r: Result<HotkeySpec, String>)
    ensures
        match r {
            Ok(h) => spec_parse(s@) == Ok::<HotkeySpec, Seq<char>>(h),
            Err(e) => spec_parse(s@) == Err::<HotkeySpec, Seq<char>>(e@),
        },
{
    let parts = chord_parts_of(s);
    let ghost pv = parts@.map_values(|w: Vec<char>| w@);
    let np = parts.len();
    let cs = chars_of(s);
    let raw = split_chars(cs.as_slice(), '+');
    let ghost rv = raw@.map_values(|w: Vec<char>| w@);
    proof {
        crate::text::lemma_split_nonempty(s@, '+');
        assert(rv.len() == np);
    }
    let key_raw = trim_chars(raw[np - 1].as_slice());
    assert(rv[np - 1] == raw@[np - 1]@);
    assert(key_raw@ == split_on(s@, '+').map_values(|p: Seq<char>| spec_trim(p)).last());
    let mut h = HotkeySpec { ctrl: false, alt: false, shift: false, win: false, vk: 0 };
    let mut i: usize = 0;
    while i < np - 1
        invariant
            i <= np - 1,
            np == parts@.len(),
            np >= 1,
            pv == parts@.map_values(|w: Vec<char>| w@),
            pv == chord_parts(s@),
            h.vk == 0,
            mods_of(pv.drop_last(), i as int) == Ok::<(bool, bool, bool, bool), Seq<char>>((h.ctrl, h.alt, h.shift, h.win)),
        decreases np - 1 - i,
    {
        assert(pv[i as int] == parts@[i as int]@);
        assert(pv.drop_last()[i as int] == pv[i as int]);
        let m = parts[i].as_slice();
        if eq_lit(m, "ctrl") || eq_lit(m, "control") {
            h.ctrl = true;
        } else if eq_lit(m, "alt") {
            h.alt = true;
        } else if eq_lit(m, "shift") {
            h.shift = true;
        } else if eq_lit(m, "win") || eq_lit(m, "windows") {
            h.win = true;
        } else {
            let mut e = String::new();
            push_str(&mut e, "unknown modifier '");
            push_chars(&mut e, m);
            push_str(&mut e, "'");
            proof {
                lemma_mods_err_stays(pv.drop_last(), i + 1, pv.drop_last().len() as int);
            }
            return Err(e);
        }
        i += 1;
    }
    if !(h.ctrl || h.alt || h.win) {
        return Err("hotkey needs Ctrl, Alt or Win".to_owned());
    }
    match vk_of(key_raw.as_slice()) {
        None => {
            let mut e = String::new();
            push_str(&mut e, "unknown key '");
            push_chars(&mut e, key_raw.as_slice());
            push_str(&mut e, "'");
            Err(e)
        },
        Some(vk) => {
            h.vk = vk;
            Ok(h)
        },
    }
}

// ---------------------------------------------------------------------------------------------
// Registering the hotkey and switching keyboards.

/// The Win32 `RegisterHotKey` modifier flags.
pub const MOD_ALT: u32 = 0x0001;
pub const MOD_CONTROL: u32 = 0x0002;
pub const MOD_SHIFT: u32 = 0x0004;
pub const MOD_WIN: u32 = 0x0008;
pub const MOD_NOREPEAT: u32 = 0x4000;

/// The modifier flags the hotkey is registered with: its modifiers, and no auto-repeat.
pub open spec fn spec_modifiers(h: HotkeySpec) -> u32 {
    let m = MOD_NOREPEAT;
    let m = if h.ctrl { m | MOD_CONTROL } else { m };
    let m = if h.alt { m | MOD_ALT } else { m };
    let m = if h.shift { m | MOD_SHIFT } else { m };
    if h.win { m | MOD_WIN } else { m }
}

pub fn modifiers(h: &HotkeySpec) -> (r: u32)
    ensures
        r == spec_modifiers(*h),
{
    let mut m = MOD_NOREPEAT;
    if h.ctrl {
        m = m | MOD_CONTROL;
    }
    if h.alt {
        m = m | MOD_ALT;
    }
    if h.shift {
        m = m | MOD_SHIFT;
    }
    if h.win {
        m = m | MOD_WIN;
    }
    m
}

/// The primary language of a keyboard layout handle: its low ten bits.
pub open spec fn spec_primary_lang(hkl: u64) -> u64 {
    hkl % 1024
}

/// Arabic's primary language id.
pub const LANG_ARABIC: u64 = 0x01;

pub open spec fn is_arabic(hkl: u64) -> bool {
    spec_primary_lang(hkl) == LANG_ARABIC
}

/// The first layout of `loaded` (from `i`) that is (or is not, with `arabic` false) Arabic.
pub open spec fn first_layout(loaded: Seq<u64>, arabic: bool, i: int) -> Option<u64>
    decreases loaded.len() - i,
{
    if i >= loaded.len() {
        None
    } else if is_arabic(loaded[i]) == arabic {
        Some(loaded[i])
    } else {
        first_layout(loaded, arabic, i + 1)
    }
}

/// What the hotkey does in a window whose layout is `cur`, given the layouts `loaded` and the
/// last non-Arabic layout remembered: from Arabic, back to that layout if it is still loaded,
/// else to the first non-Arabic one; from another layout, to the first Arabic one, remembering
/// the layout left. The result is the layout to switch to (if any) and the layout remembered.
pub open spec fn spec_toggle(cur: u64, last_latin: u64, loaded: Seq<u64>) -> (Option<u64>, u64) {
    if is_arabic(cur) {
        let target = if loaded.contains(last_latin) {
            Some(last_latin)
        } else {
            first_layout(loaded, false, 0)
        };
        (target, last_latin)
    } else {
        (first_layout(loaded, true, 0), cur)
    }
}

fn find_layout(loaded: &[u64], arabic: bool) -> (r: Option<u64>)
    ensures
        r == first_layout(loaded@, arabic, 0),
{
    let mut i: usize = 0;
    while i < loaded.len()
        invariant
            i <= loaded@.len(),
            first_layout(loaded@, arabic, 0) == first_layout(loaded@, arabic, i as int),
        decreases loaded@.len() - i,
    {
        if (loaded[i] % 1024 == LANG_ARABIC) == arabic {
            return Some(loaded[i]);
        }
        i += 1;
    }
    None
}

pub fn toggle(cur: u64, last_latin: u64, loaded: &[u64]) -> (r: (Option<u64>, u64))
    ensures
        r == spec_toggle(cur, last_latin, loaded@),
{
    if cur % 1024 == LANG_ARABIC {
        let mut has_last = false;
        let mut i: usize = 0;
        while i < loaded.len()
            invariant
                i <= loaded@.len(),
                has_last == exists|j: int| 0 <= j < i && loaded@[j] == last_latin,
            decreases loaded@.len() - i,
        {
            if loaded[i] == last_latin {
                has_last = true;
            }
            i += 1;
        }
        proof {
            assert(has_last == loaded@.contains(last_latin));
        }
        let target = if has_last {
            Some(last_latin)
        } else {
            find_layout(loaded, false)
        };
        (target, last_latin)
    } else {
        (find_layout(loaded, true), cur)
    }
}

proof fn lemma_first_layout_found(loaded: Seq<u64>, arabic: bool, i: int)
    requires
        0 <= i <= loaded.len(),
    ensures
        first_layout(loaded, arabic, i) matches Some(h) ==> loaded.contains(h) && is_arabic(h)
            == arabic,
    decreases loaded.len() - i,
{
    if i < loaded.len() {
        lemma_first_layout_found(loaded, arabic, i + 1);
    }
}

/// Pressing the hotkey twice comes back: from a non-Arabic layout it switches to an Arabic one
/// (when one is loaded), and from there back to the layout it left, which it remembered.
pub proof fn law_toggle_returns(cur: u64, last_latin: u64, loaded: Seq<u64>)
    requires
        !is_arabic(cur),
        loaded.contains(cur),
        first_layout(loaded, true, 0) is Some,
    ensures
        ({
            let (target, remembered) = spec_toggle(cur, last_latin, loaded);
            &&& target is Some
            &&& is_arabic(target->0)
            &&& spec_toggle(target->0, remembered, loaded) == (Some(cur), cur)
        }),
{
    lemma_first_layout_found(loaded, true, 0);
}

} // verus!
