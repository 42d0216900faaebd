//! Dialect groups.
use vstd::prelude::*;
use crate::normalize::{lower_of, to_lower};
use crate::text::{
    chars_of, is_ws, lemma_trim_between, push_char, push_chars, split_chars, split_on, spec_trim,
    trim_chars,
};

verus! {

/// The six dialect groups, in the fixed index order used everywhere (data file, config, π).
#[derive(Clone, Copy, Debug, PartialEq, Eq, Hash, Structural)]
pub enum Dialect {
    Msa,
    Lev,
    Egy,
    Glf,
    Irq,
    Mag,
}

pub const ALL: [Dialect; 6] = [
    Dialect::Msa,
    Dialect::Lev,
    Dialect::Egy,
    Dialect::Glf,
    Dialect::Irq,
    Dialect::Mag,
];

/// Equal up to ASCII case.
pub open spec fn eq_ignore_case(a: Seq<char>, b: Seq<char>) -> bool {
    a.len() == b.len() && forall|i: int| 0 <= i < a.len() ==> lower_of(a[i]) == lower_of(b[i])
}

/// Whether `a` and `b` are equal up to ASCII case.
pub fn chars_eq_ignore_case(a: &[char], b: &[char]) -> (r: bool)
    ensures
        r == eq_ignore_case(a@, b@),
{
    if a.len() != b.len() {
        return false;
    }
    let mut i: usize = 0;
    while i < a.len()
        invariant
            i <= a@.len(),
            a@.len() == b@.len(),
            forall|j: int| 0 <= j < i ==> lower_of(a@[j]) == lower_of(b@[j]),
        decreases a@.len() - i,
    {
        if to_lower(a[i]) != to_lower(b[i]) {
            return false;
        }
        i += 1;
    }
    true
}

impl Dialect {
    pub open spec fn spec_index(self) -> int {
        match self {
            Dialect::Msa => 0,
            Dialect::Lev => 1,
            Dialect::Egy => 2,
            Dialect::Glf => 3,
            Dialect::Irq => 4,
            Dialect::Mag => 5,
        }
    }

    pub open spec fn spec_code(self) -> Seq<char> {
        match self {
            Dialect::Msa => "MSA"@,
            Dialect::Lev => "LEV"@,
            Dialect::Egy => "EGY"@,
            Dialect::Glf => "GLF"@,
            Dialect::Irq => "IRQ"@,
            Dialect::Mag => "MAG"@,
        }
    }

    pub fn code(self) -> (r: &'static str)
        ensures
            r@ == self.spec_code(),
    {
        match self {
            Dialect::Msa => "MSA",
            Dialect::Lev => "LEV",
            Dialect::Egy => "EGY",
            Dialect::Glf => "GLF",
            Dialect::Irq => "IRQ",
            Dialect::Mag => "MAG",
        }
    }

    pub fn as_str(self) -> (r: &'static str)
        ensures
            r@ == self.spec_code(),
    {
        self.code()
    }

    pub fn index(self) -> (r: usize)
        ensures
            r == self.spec_index(),
    {
        match self {
            Dialect::Msa => 0,
            Dialect::Lev => 1,
            Dialect::Egy => 2,
            Dialect::Glf => 3,
            Dialect::Irq => 4,
            Dialect::Mag => 5,
        }
    }

    pub open spec fn spec_arabic_name(self) -> Seq<char> {
        match self {
            Dialect::Msa => "فصحى"@,
            Dialect::Lev => "شامي"@,
            Dialect::Egy => "مصري"@,
            Dialect::Glf => "خليجي"@,
            Dialect::Irq => "عراقي"@,
            Dialect::Mag => "مغربي"@,
        }
    }

    /// Arabic display name for the popup badge.
    pub fn arabic_name(self) -> (r: &'static str)
        ensures
            r@ == self.spec_arabic_name(),
    {
        match self {
            Dialect::Msa => "فصحى",
            Dialect::Lev => "شامي",
            Dialect::Egy => "مصري",
            Dialect::Glf => "خليجي",
            Dialect::Irq => "عراقي",
            Dialect::Mag => "مغربي",
        }
    }

    /// The dialect whose code is `s` (trimmed, any ASCII case).
    pub open spec fn spec_parse(s: Seq<char>) -> Option<Dialect> {
        let t = spec_trim(s);
        if eq_ignore_case(Dialect::Msa.spec_code(), t) {
            Some(Dialect::Msa)
        } else if eq_ignore_case(Dialect::Lev.spec_code(), t) {
            Some(Dialect::Lev)
        } else if eq_ignore_case(Dialect::Egy.spec_code(), t) {
            Some(Dialect::Egy)
        } else if eq_ignore_case(Dialect::Glf.spec_code(), t) {
            Some(Dialect::Glf)
        } else if eq_ignore_case(Dialect::Irq.spec_code(), t) {
            Some(Dialect::Irq)
        } else if eq_ignore_case(Dialect::Mag.spec_code(), t) {
            Some(Dialect::Mag)
        } else {
            None
        }
    }

    pub fn parse(s: &str) -> (r: Option<Dialect>)
        ensures
            r == Self::spec_parse(s@),
    {
        let cs = chars_of(s);
        Self::parse_chars(cs.as_slice())
    }

    pub(crate) fn parse_chars(s: &[char]) -> (r: Option<Dialect>)
        ensures
            r == Self::spec_parse(s@),
    {
        let t = trim_chars(s);
        let mut k: usize = 0;
        while k < 6
            invariant
                k <= 6,
                t@ == spec_trim(s@),
                forall|j: int| 0 <= j < k ==> !eq_ignore_case(#[trigger] ALL[j].spec_code(), t@),
            decreases 6 - k,
        {
            let d = ALL[k];
            let code = chars_of(d.code());
            if chars_eq_ignore_case(code.as_slice(), t.as_slice()) {
                return Some(d);
            }
            k += 1;
        }
        None
    }

    pub open spec fn spec_bit(self) -> u8 {
        match self {
            Dialect::Msa => 1,
            Dialect::Lev => 2,
            Dialect::Egy => 4,
            Dialect::Glf => 8,
            Dialect::Irq => 16,
            Dialect::Mag => 32,
        }
    }

    /// The dialect's bit in a dialect mask: `1 << index`.
    pub fn bit(self) -> (r: u8)
        ensures
            r == self.spec_bit(),
    {
        match self {
            Dialect::Msa => 1,
            Dialect::Lev => 2,
            Dialect::Egy => 4,
            Dialect::Glf => 8,
            Dialect::Irq => 16,
            Dialect::Mag => 32,
        }
    }
}

/// The message for a list entry that names no dialect.
pub open spec fn unknown_dialect(part: Seq<char>) -> Seq<char> {
    "unknown dialect '"@ + part + "'"@
}

/// The mask of the first `k` entries of `parts`, or the message for the first one that names no
/// dialect.
pub open spec fn mask_of(parts: Seq<Seq<char>>, k: int) -> Result<u8, Seq<char>>
    decreases k,
{
    if k <= 0 {
        Ok(0)
    } else {
        match mask_of(parts, k - 1) {
            Err(e) => Err(e),
            Ok(m) => match Dialect::spec_parse(parts[k - 1]) {
                None => Err(unknown_dialect(parts[k - 1])),
                Some(d) => Ok(m | d.spec_bit()),
            },
        }
    }
}

proof fn lemma_mask_err_stays(parts: Seq<Seq<char>>, k: int, j: int)
    requires
        0 <= k <= j,
        mask_of(parts, k) is Err,
    ensures
        mask_of(parts, j) == mask_of(parts, k),
    decreases j - k,
{
    if j > k {
        lemma_mask_err_stays(parts, k, j - 1);
    }
}

/// A dialect list like `*` or `LEV,EGY` as a bitmask (0 = any).
pub open spec fn spec_parse_mask(s: Seq<char>) -> Result<u8, Seq<char>> {
    let t = spec_trim(s);
    if t == "*"@ || t.len() == 0 {
        Ok(0)
    } else {
        mask_of(split_on(t, ','), split_on(t, ',').len() as int)
    }
}

/// Parse a dialect list like `*` or `LEV,EGY` into a bitmask (0 = any).
pub fn parse_mask(s: &str) -> (r: Result<u8, String>)
    ensures
        match r {
            Ok(m) => spec_parse_mask(s@) == Ok::<u8, Seq<char>>(m),
            Err(e) => spec_parse_mask(s@) == Err::<u8, Seq<char>>(e@),
        },
{
    let cs = chars_of(s);
    let t = trim_chars(cs.as_slice());
    proof {
        reveal_strlit("*");
    }
    if t.len() == 0 || (t.len() == 1 && t[0] == '*') {
        assert(t.len() == 1 ==> t@ =~= "*"@);
        return Ok(0);
    }
    assert(t@ != "*"@);
    let parts = split_chars(t.as_slice(), ',');
    let ghost ps = parts@.map_values(|w: Vec<char>| w@);
    let mut m: u8 = 0;
    let mut k: usize = 0;
    while k < parts.len()
        invariant
            k <= parts.len(),
            ps == parts@.map_values(|w: Vec<char>| w@),
            ps == split_on(spec_trim(s@), ','),
            !(spec_trim(s@) == "*"@ || spec_trim(s@).len() == 0),
            mask_of(ps, k as int) == Ok::<u8, Seq<char>>(m),
        decreases parts.len() - k,
    {
        assert(ps[k as int] == parts@[k as int]@);
        match Dialect::parse_chars(parts[k].as_slice()) {
            Some(d) => {
                m = m | d.bit();
            },
            None => {
                let mut e = String::new();
                let head = chars_of("unknown dialect '");
                let tail = chars_of("'");
                push_chars(&mut e, head.as_slice());
                push_chars(&mut e, parts[k].as_slice());
                push_chars(&mut e, tail.as_slice());
                assert(e@ =~= unknown_dialect(ps[k as int]));
                proof {
                    lemma_mask_err_stays(ps, k + 1, ps.len() as int);
                }
                return Err(e);
            },
        }
        k += 1;
    }
    Ok(m)
}

/// A code spelled in any ASCII case is none of the other dialects' codes.
proof fn lemma_code_apart(d: Dialect, e: Dialect, c: Seq<char>)
    requires
        eq_ignore_case(c, d.spec_code()),
        d != e,
    ensures
        !eq_ignore_case(e.spec_code(), c),
{
    reveal_strlit("MSA");
    reveal_strlit("LEV");
    reveal_strlit("EGY");
    reveal_strlit("GLF");
    reveal_strlit("IRQ");
    reveal_strlit("MAG");
    if eq_ignore_case(e.spec_code(), c) {
        assert(lower_of(c[0]) == lower_of(d.spec_code()[0]));
        assert(lower_of(c[0]) == lower_of(e.spec_code()[0]));
        assert(lower_of(c[1]) == lower_of(d.spec_code()[1]));
        assert(lower_of(c[1]) == lower_of(e.spec_code()[1]));
        assert(false);
    }
}

/// Reading a code back: a dialect's code, in any ASCII case and with white space on either
/// side, parses to that dialect.
pub proof fn law_parse_code(d: Dialect, pre: Seq<char>, c: Seq<char>, post: Seq<char>)
    requires
        eq_ignore_case(c, d.spec_code()),
        forall|i: int| 0 <= i < pre.len() ==> is_ws(#[trigger] pre[i]),
        forall|i: int| 0 <= i < post.len() ==> is_ws(#[trigger] post[i]),
    ensures
        Dialect::spec_parse(pre + c + post) == Some(d),
{
    reveal_strlit("MSA");
    reveal_strlit("LEV");
    reveal_strlit("EGY");
    reveal_strlit("GLF");
    reveal_strlit("IRQ");
    reveal_strlit("MAG");
    let s = pre + c + post;
    let a = pre.len() as int;
    let b = a + c.len();
    assert(c.len() == 3);
    assert(lower_of(c[0]) == lower_of(d.spec_code()[0]));
    assert(lower_of(c[2]) == lower_of(d.spec_code()[2]));
    assert(s[a] == c[0]);
    assert(s[b - 1] == c[2]);
    assert forall|k: int| 0 <= k < a implies is_ws(#[trigger] s[k]) by {
        assert(s[k] == pre[k]);
    }
    assert forall|k: int| b <= k < s.len() implies is_ws(#[trigger] s[k]) by {
        assert(s[k] == post[k - b]);
    }
    lemma_trim_between(s, a, b);
    assert(s.subrange(a, b) =~= c);
    assert(eq_ignore_case(d.spec_code(), c));
    if d != Dialect::Msa {
        lemma_code_apart(d, Dialect::Msa, c);
    }
    if d != Dialect::Lev {
        lemma_code_apart(d, Dialect::Lev, c);
    }
    if d != Dialect::Egy {
        lemma_code_apart(d, Dialect::Egy, c);
    }
    if d != Dialect::Glf {
        lemma_code_apart(d, Dialect::Glf, c);
    }
    if d != Dialect::Irq {
        lemma_code_apart(d, Dialect::Irq, c);
    }
}

} // verus!
