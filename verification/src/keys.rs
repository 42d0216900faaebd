//! Key translation: the virtual keys the router knows, the modifiers held, the Latin layout
//! characters are read through, and the built-in US QWERTY table for when no Latin keyboard
//! layout is loaded.
use vstd::prelude::*;
use crate::keyrouter::{Key, Mods};

verus! {

/// The US QWERTY characters of scan code `scan`: (normal, shifted).
pub open spec fn us_key(scan: u32) -> Option<(char, char)> {
    if scan == 0x02 {
        Some(('1', '!'))
    } else if scan == 0x03 {
        Some(('2', '@'))
    } else if scan == 0x04 {
        Some(('3', '#'))
    } else if scan == 0x05 {
        Some(('4', '$'))
    } else if scan == 0x06 {
        Some(('5', '%'))
    } else if scan == 0x07 {
        Some(('6', '^'))
    } else if scan == 0x08 {
        Some(('7', '&'))
    } else if scan == 0x09 {
        Some(('8', '*'))
    } else if scan == 0x0A {
        Some(('9', '('))
    } else if scan == 0x0B {
        Some(('0', ')'))
    } else if scan == 0x0C {
        Some(('-', '_'))
    } else if scan == 0x0D {
        Some(('=', '+'))
    } else if scan == 0x10 {
        Some(('q', 'Q'))
    } else if scan == 0x11 {
        Some(('w', 'W'))
    } else if scan == 0x12 {
        Some(('e', 'E'))
    } else if scan == 0x13 {
        Some(('r', 'R'))
    } else if scan == 0x14 {
        Some(('t', 'T'))
    } else if scan == 0x15 {
        Some(('y', 'Y'))
    } else if scan == 0x16 {
        Some(('u', 'U'))
    } else if scan == 0x17 {
        Some(('i', 'I'))
    } else if scan == 0x18 {
        Some(('o', 'O'))
    } else if scan == 0x19 {
        Some(('p', 'P'))
    } else if scan == 0x1A {
        Some(('[', '{'))
    } else if scan == 0x1B {
        Some((']', '}'))
    } else if scan == 0x1E {
        Some(('a', 'A'))
    } else if scan == 0x1F {
        Some(('s', 'S'))
    } else if scan == 0x20 {
        Some(('d', 'D'))
    } else if scan == 0x21 {
        Some(('f', 'F'))
    } else if scan == 0x22 {
        Some(('g', 'G'))
    } else if scan == 0x23 {
        Some(('h', 'H'))
    } else if scan == 0x24 {
        Some(('j', 'J'))
    } else if scan == 0x25 {
        Some(('k', 'K'))
    } else if scan == 0x26 {
        Some(('l', 'L'))
    } else if scan == 0x27 {
        Some((';', ':'))
    } else if scan == 0x28 {
        Some(('\'', '"'))
    } else if scan == 0x29 {
        Some(('`', '~'))
    } else if scan == 0x2B {
        Some(('\\', '|'))
    } else if scan == 0x2C {
        Some(('z', 'Z'))
    } else if scan == 0x2D {
        Some(('x', 'X'))
    } else if scan == 0x2E {
        Some(('c', 'C'))
    } else if scan == 0x2F {
        Some(('v', 'V'))
    } else if scan == 0x30 {
        Some(('b', 'B'))
    } else if scan == 0x31 {
        Some(('n', 'N'))
    } else if scan == 0x32 {
        Some(('m', 'M'))
    } else if scan == 0x33 {
        Some((',', '<'))
    } else if scan == 0x34 {
        Some(('.', '>'))
    } else if scan == 0x35 {
        Some(('/', '?'))
    } else {
        None
    }
}

fn us_key_of(scan: u32) -> (r: Option<(char, char)>)
    ensures
        r == us_key(scan),
{
    match scan {
        0x02 => Some(('1', '!')),
        0x03 => Some(('2', '@')),
        0x04 => Some(('3', '#')),
        0x05 => Some(('4', '$')),
        0x06 => Some(('5', '%')),
        0x07 => Some(('6', '^')),
        0x08 => Some(('7', '&')),
        0x09 => Some(('8', '*')),
        0x0A => Some(('9', '(')),
        0x0B => Some(('0', ')')),
        0x0C => Some(('-', '_')),
        0x0D => Some(('=', '+')),
        0x10 => Some(('q', 'Q')),
        0x11 => Some(('w', 'W')),
        0x12 => Some(('e', 'E')),
        0x13 => Some(('r', 'R')),
        0x14 => Some(('t', 'T')),
        0x15 => Some(('y', 'Y')),
        0x16 => Some(('u', 'U')),
        0x17 => Some(('i', 'I')),
        0x18 => Some(('o', 'O')),
        0x19 => Some(('p', 'P')),
        0x1A => Some(('[', '{')),
        0x1B => Some((']', '}')),
        0x1E => Some(('a', 'A')),
        0x1F => Some(('s', 'S')),
        0x20 => Some(('d', 'D')),
        0x21 => Some(('f', 'F')),
        0x22 => Some(('g', 'G')),
        0x23 => Some(('h', 'H')),
        0x24 => Some(('j', 'J')),
        0x25 => Some(('k', 'K')),
        0x26 => Some(('l', 'L')),
        0x27 => Some((';', ':')),
        0x28 => Some(('\'', '"')),
        0x29 => Some(('`', '~')),
        0x2B => Some(('\\', '|')),
        0x2C => Some(('z', 'Z')),
        0x2D => Some(('x', 'X')),
        0x2E => Some(('c', 'C')),
        0x2F => Some(('v', 'V')),
        0x30 => Some(('b', 'B')),
        0x31 => Some(('n', 'N')),
        0x32 => Some(('m', 'M')),
        0x33 => Some((',', '<')),
        0x34 => Some(('.', '>')),
        0x35 => Some(('/', '?')),
        _ => None,
    }
}

/// The character a US QWERTY key types: letters follow Shift xor Caps Lock, other keys Shift.
pub open spec fn spec_us_fallback(scan: u32, shift: bool, caps: bool) -> Option<char> {
    match us_key(scan) {
        None => None,
        Some((normal, shifted)) => {
            let upper = if ('a' <= normal <= 'z') || ('A' <= normal <= 'Z') {
                shift != caps
            } else {
                shift
            };
            Some(if upper { shifted } else { normal })
        },
    }
}

/// US QWERTY by scan code, used when no Latin layout is loaded.
pub fn us_fallback(scan: u32, shift: bool, caps: bool) -> (r: Option<char>)
    ensures
        r == spec_us_fallback(scan, shift, caps),
{
    let (normal, shifted) = match us_key_of(scan) {
        Some(p) => p,
        None => {
            return None;
        },
    };
    let upper = if ('a' <= normal && normal <= 'z') || ('A' <= normal && normal <= 'Z') {
        shift != caps
    } else {
        shift
    };
    Some(if upper { shifted } else { normal })
}

// ---------------------------------------------------------------------------------------------
// Virtual keys.

/// A modifier key's virtual key: Shift, Ctrl, Alt (and their left/right forms), Caps Lock, the
/// Windows keys, Num Lock and Scroll Lock.
pub open spec fn is_modifier_vk(vk: u16) -> bool {
    vk == 0x10 || vk == 0x11 || vk == 0x12 || vk == 0x14 || vk == 0x5B || vk == 0x5C || vk
        == 0x90 || vk == 0x91 || (0xA0 <= vk <= 0xA5)
}

/// The key a virtual key is; `ch` is the character the Latin layout gives the key (if any),
/// used for every key the router does not name.
pub open spec fn spec_key_of_vk(vk: u16, ch: Option<char>) -> Key {
    if is_modifier_vk(vk) {
        Key::Modifier
    } else if vk == 0x20 {
        Key::Space
    } else if vk == 0x0D {
        Key::Enter
    } else if vk == 0x1B {
        Key::Escape
    } else if vk == 0x08 {
        Key::Backspace
    } else if vk == 0x09 {
        Key::Tab
    } else if vk == 0x26 {
        Key::Up
    } else if vk == 0x28 {
        Key::Down
    } else if vk == 0x25 {
        Key::Left
    } else if vk == 0x27 {
        Key::Right
    } else if vk == 0x21 {
        Key::PageUp
    } else if vk == 0x22 {
        Key::PageDown
    } else if vk == 0x24 {
        Key::Home
    } else if vk == 0x23 {
        Key::End
    } else if vk == 0x2E {
        Key::Delete
    } else if 0x60 <= vk <= 0x69 {
        Key::NumpadDigit(((48 + vk - 0x60) as u8) as char)
    } else {
        match ch {
            Some(c) => Key::Char(c),
            None => Key::Other,
        }
    }
}

pub fn key_of_vk(vk: u16, ch: Option<char>) -> (r: Key)
    ensures
        r == spec_key_of_vk(vk, ch),
{
    if vk == 0x10 || vk == 0x11 || vk == 0x12 || vk == 0x14 || vk == 0x5B || vk == 0x5C || vk
        == 0x90 || vk == 0x91 || (0xA0 <= vk && vk <= 0xA5) {
        Key::Modifier
    } else if vk == 0x20 {
        Key::Space
    } else if vk == 0x0D {
        Key::Enter
    } else if vk == 0x1B {
        Key::Escape
    } else if vk == 0x08 {
        Key::Backspace
    } else if vk == 0x09 {
        Key::Tab
    } else if vk == 0x26 {
        Key::Up
    } else if vk == 0x28 {
        Key::Down
    } else if vk == 0x25 {
        Key::Left
    } else if vk == 0x27 {
        Key::Right
    } else if vk == 0x21 {
        Key::PageUp
    } else if vk == 0x22 {
        Key::PageDown
    } else if vk == 0x24 {
        Key::Home
    } else if vk == 0x23 {
        Key::End
    } else if vk == 0x2E {
        Key::Delete
    } else if 0x60 <= vk && vk <= 0x69 {
        Key::NumpadDigit(((48 + vk - 0x60) as u8) as char)
    } else {
        match ch {
            Some(c) => Key::Char(c),
            None => Key::Other,
        }
    }
}

/// The modifiers of a key event from the keys held. Right Alt with Ctrl is AltGr (AltGr
/// layouts send it as Ctrl+Alt): a character modifier, so neither Ctrl nor Alt counts then.
pub open spec fn spec_mods_held(shift: bool, ctrl: bool, alt: bool, left_win: bool, right_win: bool, right_alt: bool) -> Mods {
    let altgr = right_alt && ctrl;
    Mods { shift, ctrl: ctrl && !altgr, alt: alt && !altgr, win: left_win || right_win, altgr }
}

pub fn mods_held(shift: bool, ctrl: bool, alt: bool, left_win: bool, right_win: bool, right_alt: bool) -> (r: Mods)
    ensures
        r == spec_mods_held(shift, ctrl, alt, left_win, right_win, right_alt),
{
    let altgr = right_alt && ctrl;
    Mods { shift, ctrl: ctrl && !altgr, alt: alt && !altgr, win: left_win || right_win, altgr }
}

/// A right-to-left primary language: Arabic, Hebrew, Urdu, Farsi.
pub open spec fn is_rtl_lang(primary: u64) -> bool {
    primary == 0x01 || primary == 0x0D || primary == 0x20 || primary == 0x29
}

/// The first layout (from `i`) whose primary language (low ten bits) is not right-to-left.
pub open spec fn first_latin_layout(loaded: Seq<u64>, i: int) -> Option<u64>
    decreases loaded.len() - i,
{
    if i >= loaded.len() {
        None
    } else if !is_rtl_lang(loaded[i] % 1024) {
        Some(loaded[i])
    } else {
        first_latin_layout(loaded, i + 1)
    }
}

/// The user's Latin layout: the first loaded layout that is not right-to-left; none means the
/// US table.
pub fn latin_layout(loaded: &[u64]) -> (r: Option<u64>)
    ensures
        r == first_latin_layout(loaded@, 0),
{
    let mut i: usize = 0;
    while i < loaded.len()
        invariant
            i <= loaded@.len(),
            first_latin_layout(loaded@, 0) == first_latin_layout(loaded@, i as int),
        decreases loaded@.len() - i,
    {
        let p = loaded[i] % 1024;
        if !(p == 0x01 || p == 0x0D || p == 0x20 || p == 0x29) {
            return Some(loaded[i]);
        }
        i += 1;
    }
    None
}

} // verus!
