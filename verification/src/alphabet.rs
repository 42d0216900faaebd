//! The T3A alphabet: one byte per Arabic letter. Code 0 is reserved; codes 1..=42 follow
//! Unicode order.
use vstd::prelude::*;
use crate::text::{chars_of, push_char};

verus! {

/// Arabic letters indexed by `code - 1`.
pub const LETTERS: [char; 42] = [
    '\u{0621}', '\u{0622}', '\u{0623}', '\u{0624}', '\u{0625}', '\u{0626}', '\u{0627}', '\u{0628}',
    '\u{0629}', '\u{062A}', '\u{062B}', '\u{062C}', '\u{062D}', '\u{062E}', '\u{062F}', '\u{0630}',
    '\u{0631}', '\u{0632}', '\u{0633}', '\u{0634}', '\u{0635}', '\u{0636}', '\u{0637}', '\u{0638}',
    '\u{0639}', '\u{063A}', '\u{0641}', '\u{0642}', '\u{0643}', '\u{0644}', '\u{0645}', '\u{0646}',
    '\u{0647}', '\u{0648}', '\u{0649}', '\u{064A}', '\u{067E}', '\u{0686}', '\u{06A4}', '\u{06A8}',
    '\u{06AD}', '\u{06AF}',
];

/// Number of letters in the alphabet.
pub const COUNT: u8 = 42;

/// The letter with T3A code `code`, if `code` is 1..=42.
pub open spec fn spec_char_of(code: u8) -> Option<char> {
    if 1 <= code <= 42 {
        Some(LETTERS@[code - 1])
    } else {
        None
    }
}

/// The T3A code of `c`: letters U+0621..U+063A are 1..=26, U+0641..U+064A are 27..=36, and the
/// six extra letters پ چ ڤ ڨ ڭ گ are 37..=42.
pub open spec fn spec_code_of(c: char) -> Option<u8> {
    let u = c as u32;
    if 0x621 <= u <= 0x63A {
        Some((u - 0x620) as u8)
    } else if 0x641 <= u <= 0x64A {
        Some((u - 0x640 + 26) as u8)
    } else if u == 0x67E {
        Some(37)
    } else if u == 0x686 {
        Some(38)
    } else if u == 0x6A4 {
        Some(39)
    } else if u == 0x6A8 {
        Some(40)
    } else if u == 0x6AD {
        Some(41)
    } else if u == 0x6AF {
        Some(42)
    } else {
        None
    }
}

pub open spec fn spec_is_letter(c: char) -> bool {
    spec_code_of(c) is Some
}

/// The codes of `s`, if every character of `s` is a letter.
pub open spec fn spec_encode(s: Seq<char>) -> Option<Seq<u8>> {
    if forall|i: int| 0 <= i < s.len() ==> spec_is_letter(#[trigger] s[i]) {
        Some(Seq::new(s.len(), |i: int| spec_code_of(s[i])->0))
    } else {
        None
    }
}

/// The letters of the valid codes in `codes`, in order (invalid codes are skipped).
pub open spec fn spec_decode(codes: Seq<u8>) -> Seq<char>
    decreases codes.len(),
{
    if codes.len() == 0 {
        Seq::empty()
    } else {
        let rest = spec_decode(codes.drop_last());
        match spec_char_of(codes.last()) {
            Some(c) => rest.push(c),
            None => rest,
        }
    }
}

proof fn lemma_table()
    ensures
        forall|i: int| 0 <= i < 42 ==> spec_code_of(#[trigger] LETTERS@[i]) == Some((i + 1) as u8),
{
}

/// `spec_char_of` and `spec_code_of` are inverse on the alphabet.
pub proof fn lemma_code_char_inverse(c: char, code: u8)
    ensures
        spec_char_of(code) == Some(c) <==> spec_code_of(c) == Some(code),
{
    lemma_table();
    if spec_code_of(c) == Some(code) {
        let u = c as u32;
        assert(spec_code_of(LETTERS@[code - 1]) == Some(code));
        assert((LETTERS@[code - 1]) as u32 == u);
    }
}

/// T3A code of an Arabic letter, or `None` if `c` is not in the alphabet.
pub fn code_of(c: char) -> (r: Option<u8>)
    ensures
        r == spec_code_of(c),
{
    proof {
        lemma_table();
    }
    let mut i: usize = 0;
    while i < 42
        invariant
            i <= 42,
            forall|j: int| 0 <= j < i ==> LETTERS@[j] != c,
        decreases 42 - i,
    {
        if LETTERS[i] == c {
            proof {
                lemma_code_char_inverse(c, (i + 1) as u8);
            }
            return Some(i as u8 + 1);
        }
        i += 1;
    }
    proof {
        if let Some(k) = spec_code_of(c) {
            lemma_code_char_inverse(c, k);
            assert(LETTERS@[k - 1] == c);
        }
    }
    None
}

/// Arabic letter for a T3A code (1..=42).
pub fn char_of(code: u8) -> (r: Option<char>)
    ensures
        r == spec_char_of(code),
{
    if code == 0 || code > COUNT {
        None
    } else {
        Some(LETTERS[code as usize - 1])
    }
}

/// True if `c` is a letter of the T3A alphabet.
pub fn is_letter(c: char) -> (r: bool)
    ensures
        r == spec_is_letter(c),
{
    code_of(c).is_some()
}

/// Encode an Arabic string (letters only) to T3A codes. Returns `None` on any non-letter.
pub fn encode(s: &str) -> (r: Option<Vec<u8>>)
    ensures
        match r {
            Some(v) => spec_encode(s@) == Some(v@),
            None => spec_encode(s@) is None,
        },
{
    let cs = chars_of(s);
    let mut out: Vec<u8> = Vec::new();
    let mut i: usize = 0;
    while i < cs.len()
        invariant
            i <= cs@.len(),
            cs@ == s@,
            out@.len() == i,
            forall|j: int| 0 <= j < i ==> spec_is_letter(#[trigger] cs@[j]),
            forall|j: int| 0 <= j < i ==> out@[j] == spec_code_of(cs@[j])->0,
        decreases cs@.len() - i,
    {
        match code_of(cs[i]) {
            Some(k) => out.push(k),
            None => {
                assert(!spec_is_letter(s@[i as int]));
                return None;
            },
        }
        i += 1;
    }
    assert(out@ =~= Seq::new(s@.len(), |j: int| spec_code_of(s@[j])->0));
    Some(out)
}

/// Decode T3A codes to a `String`. Invalid codes are skipped.
pub fn decode(codes: &[u8]) -> (r: String)
    ensures
        r@ == spec_decode(codes@),
{
    let mut out = String::new();
    let mut i: usize = 0;
    while i < codes.len()
        invariant
            i <= codes@.len(),
            out@ == spec_decode(codes@.take(i as int)),
        decreases codes@.len() - i,
    {
        assert(codes@.take(i + 1).drop_last() =~= codes@.take(i as int));
        if let Some(c) = char_of(codes[i]) {
            push_char(&mut out, c);
        }
        i += 1;
    }
    assert(codes@.take(codes@.len() as int) =~= codes@);
    out
}

/// Decoding what was encoded gives the word back.
pub proof fn law_decode_encode(s: Seq<char>)
    requires
        spec_encode(s) is Some,
    ensures
        spec_decode(spec_encode(s)->0) == s,
    decreases s.len(),
{
    let codes = spec_encode(s)->0;
    if s.len() > 0 {
        let t = s.drop_last();
        assert forall|i: int| 0 <= i < t.len() implies spec_is_letter(#[trigger] t[i]) by {
            assert(t[i] == s[i]);
        }
        law_decode_encode(t);
        assert(spec_encode(t)->0 =~= codes.drop_last());
        assert(spec_is_letter(s[s.len() - 1]));
        lemma_code_char_inverse(s.last(), codes.last());
        assert(spec_decode(codes) =~= s);
    } else {
        assert(spec_decode(codes) =~= s);
    }
}

/// Encoding the letters of valid codes gives the codes back.
pub proof fn law_encode_decode(codes: Seq<u8>)
    requires
        forall|i: int| 0 <= i < codes.len() ==> 1 <= #[trigger] codes[i] <= 42,
    ensures
        spec_encode(spec_decode(codes)) == Some(codes),
    decreases codes.len(),
{
    if codes.len() > 0 {
        let t = codes.drop_last();
        assert forall|i: int| 0 <= i < t.len() implies 1 <= #[trigger] t[i] <= 42 by {
            assert(t[i] == codes[i]);
        }
        law_encode_decode(t);
        let c = LETTERS@[codes.last() - 1];
        lemma_code_char_inverse(c, codes.last());
        let d = spec_decode(codes);
        assert(d == spec_decode(t).push(c));
        assert forall|i: int| 0 <= i < d.len() implies spec_is_letter(#[trigger] d[i]) by {
            if i < d.len() - 1 {
                assert(d[i] == spec_decode(t)[i]);
            }
        }
        let dt = spec_decode(t);
        assert forall|i: int| 0 <= i < d.len() implies spec_code_of(#[trigger] d[i])->0 == codes[i] by {
            if i < d.len() - 1 {
                assert(d[i] == dt[i]);
                assert(spec_encode(dt)->0[i] == spec_code_of(dt[i])->0);
                assert(t[i] == codes[i]);
            }
        }
        assert(spec_encode(d)->0 =~= codes);
    } else {
        assert(spec_encode(spec_decode(codes))->0 =~= codes);
    }
}

} // verus!
