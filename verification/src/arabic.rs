//! Arabic text helpers: marks, base forms, normalization and mark ordering.
use vstd::prelude::*;
use crate::text::{chars_of, push_char};

verus! {

pub const FATHATAN: char = '\u{064B}';
pub const DAMMATAN: char = '\u{064C}';
pub const KASRATAN: char = '\u{064D}';
pub const FATHA: char = '\u{064E}';
pub const DAMMA: char = '\u{064F}';
pub const KASRA: char = '\u{0650}';
pub const SHADDA: char = '\u{0651}';
pub const SUKUN: char = '\u{0652}';
pub const SUPERSCRIPT_ALEF: char = '\u{0670}';
pub const TATWEEL: char = '\u{0640}';

pub open spec fn spec_is_mark(c: char) -> bool {
    ('\u{064B}' <= c && c <= '\u{0652}') || c == '\u{0670}'
}

pub open spec fn spec_is_vowel_mark(c: char) -> bool {
    ('\u{064B}' <= c && c <= '\u{0650}') || c == '\u{0652}'
}

/// Harakat recognised by the engine.
pub fn is_mark(c: char) -> (r: bool)
    ensures
        r == spec_is_mark(c),
{
    ('\u{064B}' <= c && c <= '\u{0652}') || c == '\u{0670}'
}

/// Vowel-class marks (at most one per letter).
pub fn is_vowel_mark(c: char) -> (r: bool)
    ensures
        r == spec_is_vowel_mark(c),
{
    ('\u{064B}' <= c && c <= '\u{0650}') || c == '\u{0652}'
}

/// `s` without its marks.
pub open spec fn spec_strip_marks(s: Seq<char>) -> Seq<char> {
    s.filter(|c: char| !spec_is_mark(c))
}

/// Remove all harakat (base form).
pub fn strip_marks(s: &str) -> (r: String)
    ensures
        r@ == spec_strip_marks(s@),
{
    let cs = chars_of(s);
    let mut out = String::new();
    let mut i: usize = 0;
    while i < cs.len()
        invariant
            i <= cs@.len(),
            cs@ == s@,
            out@ == spec_strip_marks(cs@.take(i as int)),
        decreases cs@.len() - i,
    {
        proof {
            reveal(Seq::filter);
            assert(cs@.take(i + 1).drop_last() =~= cs@.take(i as int));
        }
        if !is_mark(cs[i]) {
            push_char(&mut out, cs[i]);
        }
        i += 1;
    }
    assert(cs@.take(cs@.len() as int) =~= cs@);
    out
}

/// What one character becomes in the base form: dropped (tatweel, joiners, direction marks,
/// Quranic annotation signs, harakat), folded (alef wasla, Farsi yeh, keheh, heh goal) or kept.
pub open spec fn normalize_char(c: char) -> Option<char> {
    if c == TATWEEL || c == '\u{200C}' || c == '\u{200D}' || c == '\u{200E}' || c == '\u{200F}'
        || ('\u{202A}' <= c && c <= '\u{202E}') || ('\u{2066}' <= c && c <= '\u{2069}')
        || ('\u{06D6}' <= c && c <= '\u{06ED}') || ('\u{0615}' <= c && c <= '\u{061A}') {
        None
    } else if c == '\u{0671}' {
        Some('\u{0627}')
    } else if c == '\u{06CC}' {
        Some('\u{064A}')
    } else if c == '\u{06A9}' {
        Some('\u{0643}')
    } else if c == '\u{06C1}' {
        Some('\u{0647}')
    } else if spec_is_mark(c) {
        None
    } else {
        Some(c)
    }
}

pub open spec fn spec_normalize_word(s: Seq<char>) -> Seq<char>
    decreases s.len(),
{
    if s.len() == 0 {
        Seq::empty()
    } else {
        let rest = spec_normalize_word(s.drop_last());
        match normalize_char(s.last()) {
            Some(c) => rest.push(c),
            None => rest,
        }
    }
}

/// Normalize arbitrary Arabic text to its base form exactly as the data pipeline does, minus
/// Unicode NFC.
pub fn normalize_word(s: &str) -> (r: String)
    ensures
        r@ == spec_normalize_word(s@),
{
    let cs = chars_of(s);
    let mut out = String::new();
    let mut i: usize = 0;
    while i < cs.len()
        invariant
            i <= cs@.len(),
            cs@ == s@,
            out@ == spec_normalize_word(cs@.take(i as int)),
        decreases cs@.len() - i,
    {
        assert(cs@.take(i + 1).drop_last() =~= cs@.take(i as int));
        let c = cs[i];
        if c == TATWEEL || c == '\u{200C}' || c == '\u{200D}' {
        } else if c == '\u{200E}' || c == '\u{200F}' || ('\u{202A}' <= c && c <= '\u{202E}')
            || ('\u{2066}' <= c && c <= '\u{2069}') {
        } else if ('\u{06D6}' <= c && c <= '\u{06ED}') || ('\u{0615}' <= c && c <= '\u{061A}') {
        } else if c == '\u{0671}' {
            push_char(&mut out, '\u{0627}');
        } else if c == '\u{06CC}' {
            push_char(&mut out, '\u{064A}');
        } else if c == '\u{06A9}' {
            push_char(&mut out, '\u{0643}');
        } else if c == '\u{06C1}' {
            push_char(&mut out, '\u{0647}');
        } else if is_mark(c) {
        } else {
            push_char(&mut out, c);
        }
        i += 1;
    }
    assert(cs@.take(cs@.len() as int) =~= cs@);
    out
}

/// The pending marks in canonical typing order.
pub open spec fn flush(shadda: bool, vowel: Option<char>, dagger: bool) -> Seq<char> {
    (if shadda { seq![SHADDA] } else { Seq::empty() }) + (match vowel {
        Some(v) => seq![v],
        None => Seq::empty(),
    }) + (if dagger { seq![SUPERSCRIPT_ALEF] } else { Seq::empty() })
}

/// Output emitted so far and the pending marks after reading `s`.
pub open spec fn cmo_state(s: Seq<char>) -> (Seq<char>, bool, Option<char>, bool)
    decreases s.len(),
{
    if s.len() == 0 {
        (Seq::empty(), false, None, false)
    } else {
        let (out, sh, v, d) = cmo_state(s.drop_last());
        let c = s.last();
        if c == SHADDA {
            (out, true, v, d)
        } else if c == SUPERSCRIPT_ALEF {
            (out, sh, v, true)
        } else if spec_is_vowel_mark(c) {
            (out, sh, Some(c), d)
        } else {
            (out + flush(sh, v, d) + seq![c], false, None, false)
        }
    }
}

/// `s` with the marks after each letter in canonical typing order: shadda, then one
/// vowel/sukun/tanween (the last one typed), then superscript alef.
pub open spec fn spec_canonical_mark_order(s: Seq<char>) -> Seq<char> {
    let (out, sh, v, d) = cmo_state(s);
    out + flush(sh, v, d)
}

/// Reorder marks after each base letter to the product's canonical typing order: shadda, then
/// one vowel/sukun/tanween, then superscript alef. Duplicate vowel marks on one letter: the last
/// one wins.
pub fn canonical_mark_order(s: &str) -> (r: String)
    ensures
        r@ == spec_canonical_mark_order(s@),
{
    let cs = chars_of(s);
    let mut out = String::new();
    let mut shadda = false;
    let mut vowel: Option<char> = None;
    let mut dagger = false;
    let mut i: usize = 0;
    while i < cs.len()
        invariant
            i <= cs@.len(),
            cs@ == s@,
            cmo_state(cs@.take(i as int)) == (out@, shadda, vowel, dagger),
        decreases cs@.len() - i,
    {
        assert(cs@.take(i + 1).drop_last() =~= cs@.take(i as int));
        let c = cs[i];
        if c == SHADDA {
            shadda = true;
        } else if c == SUPERSCRIPT_ALEF {
            dagger = true;
        } else if is_vowel_mark(c) {
            vowel = Some(c);
        } else {
            flush_into(&mut out, shadda, vowel, dagger);
            push_char(&mut out, c);
            shadda = false;
            vowel = None;
            dagger = false;
        }
        i += 1;
    }
    assert(cs@.take(cs@.len() as int) =~= cs@);
    flush_into(&mut out, shadda, vowel, dagger);
    out
}

fn flush_into(out: &mut String, shadda: bool, vowel: Option<char>, dagger: bool)
    ensures
        final(out)@ == old(out)@ + flush(shadda, vowel, dagger),
{
    if shadda {
        push_char(out, SHADDA);
    }
    if let Some(v) = vowel {
        push_char(out, v);
    }
    if dagger {
        push_char(out, SUPERSCRIPT_ALEF);
    }
    assert(final(out)@ =~= old(out)@ + flush(shadda, vowel, dagger));
}

/// Characters the engine never outputs: tatweel, presentation forms (except ﷺ U+FDFA), joiners and
/// direction controls.
pub open spec fn is_unclean(c: char) -> bool {
    c == TATWEEL || ('\u{FB50}' <= c && c <= '\u{FDFF}' && c != '\u{FDFA}') || ('\u{FE70}' <= c
        && c <= '\u{FEFF}') || ('\u{200C}' <= c && c <= '\u{200F}') || ('\u{202A}' <= c && c
        <= '\u{202E}') || ('\u{2066}' <= c && c <= '\u{2069}')
}

/// True if `s` contains only characters the engine may output.
pub fn is_clean_output(s: &str) -> (r: bool)
    ensures
        r == (forall|i: int| 0 <= i < s@.len() ==> !is_unclean(#[trigger] s@[i])),
{
    let cs = chars_of(s);
    let mut i: usize = 0;
    while i < cs.len()
        invariant
            i <= cs@.len(),
            cs@ == s@,
            forall|j: int| 0 <= j < i ==> !is_unclean(#[trigger] cs@[j]),
        decreases cs@.len() - i,
    {
        let c = cs[i];
        if c == TATWEEL || ('\u{FB50}' <= c && c <= '\u{FDFF}' && c != '\u{FDFA}') || ('\u{FE70}'
            <= c && c <= '\u{FEFF}') || ('\u{200C}' <= c && c <= '\u{200F}') || ('\u{202A}' <= c
            && c <= '\u{202E}') || ('\u{2066}' <= c && c <= '\u{2069}') {
            return false;
        }
        i += 1;
    }
    true
}

/// Reading the pending marks in canonical order, from a state with none pending, pends them again.
proof fn lemma_cmo_flush(x: Seq<char>, sh: bool, v: Option<char>, d: bool)
    requires
        cmo_state(x) == (x, false, None::<char>, false),
        v matches Some(c) ==> spec_is_vowel_mark(c),
    ensures
        cmo_state(x + flush(sh, v, d)) == (x, sh, v, d),
{
    let y1 = if sh { x.push(SHADDA) } else { x };
    if sh {
        assert(y1.drop_last() =~= x);
    }
    assert(cmo_state(y1) == (x, sh, None::<char>, false));
    let y2 = match v {
        Some(c) => y1.push(c),
        None => y1,
    };
    if v is Some {
        assert(y2.drop_last() =~= y1);
    }
    assert(cmo_state(y2) == (x, sh, v, false));
    let y3 = if d { y2.push(SUPERSCRIPT_ALEF) } else { y2 };
    if d {
        assert(y3.drop_last() =~= y2);
    }
    assert(cmo_state(y3) == (x, sh, v, d));
    assert(x + flush(sh, v, d) =~= y3);
}

/// What has been emitted reads back as itself with nothing pending, and a pending vowel is a
/// vowel mark.
proof fn lemma_cmo_out_settled(s: Seq<char>)
    ensures
        cmo_state(cmo_state(s).0) == (cmo_state(s).0, false, None::<char>, false),
        cmo_state(s).2 matches Some(c) ==> spec_is_vowel_mark(c),
    decreases s.len(),
{
    if s.len() > 0 {
        let s0 = s.drop_last();
        lemma_cmo_out_settled(s0);
        let (out0, sh0, v0, d0) = cmo_state(s0);
        let c = s.last();
        if c != SHADDA && c != SUPERSCRIPT_ALEF && !spec_is_vowel_mark(c) {
            lemma_cmo_flush(out0, sh0, v0, d0);
            let y = out0 + flush(sh0, v0, d0);
            assert((y + seq![c]).drop_last() =~= y);
            assert((y + seq![c]).last() == c);
        }
    } else {
        assert(cmo_state(Seq::<char>::empty()).0 =~= Seq::<char>::empty());
    }
}

pub proof fn lemma_strip_add(a: Seq<char>, b: Seq<char>)
    ensures
        spec_strip_marks(a + b) == spec_strip_marks(a) + spec_strip_marks(b),
{
    Seq::filter_distributes_over_add(a, b, |c: char| !spec_is_mark(c));
}

pub proof fn lemma_strip_one(c: char)
    ensures
        spec_strip_marks(seq![c]) == if spec_is_mark(c) { Seq::<char>::empty() } else { seq![c] },
{
    reveal(Seq::filter);
    assert(seq![c].drop_last() =~= Seq::<char>::empty());
    assert(Seq::<char>::empty().filter(|c: char| !spec_is_mark(c)) =~= Seq::<char>::empty());
    if !spec_is_mark(c) {
        assert(Seq::<char>::empty().push(c) =~= seq![c]);
    }
}

proof fn lemma_strip_flush(sh: bool, v: Option<char>, d: bool)
    requires
        v matches Some(c) ==> spec_is_vowel_mark(c),
    ensures
        spec_strip_marks(flush(sh, v, d)) == Seq::<char>::empty(),
{
    let a = if sh { seq![SHADDA] } else { Seq::empty() };
    let b = match v {
        Some(c) => seq![c],
        None => Seq::empty(),
    };
    let e = if d { seq![SUPERSCRIPT_ALEF] } else { Seq::empty() };
    lemma_strip_one(SHADDA);
    lemma_strip_one(SUPERSCRIPT_ALEF);
    if let Some(c) = v {
        lemma_strip_one(c);
    }
    lemma_strip_add(Seq::empty(), Seq::empty());
    assert(Seq::<char>::empty() + Seq::<char>::empty() =~= Seq::<char>::empty());
    lemma_strip_add(a, b);
    lemma_strip_add(a + b, e);
    assert(flush(sh, v, d) == a + b + e);
    assert(spec_strip_marks(Seq::<char>::empty()) =~= Seq::<char>::empty()) by {
        reveal(Seq::filter);
    }
}

/// What has been emitted keeps every letter read so far, in order.
proof fn lemma_cmo_strip(s: Seq<char>)
    ensures
        spec_strip_marks(cmo_state(s).0) == spec_strip_marks(s),
        cmo_state(s).2 matches Some(c) ==> spec_is_vowel_mark(c),
    decreases s.len(),
{
    if s.len() > 0 {
        let s0 = s.drop_last();
        lemma_cmo_strip(s0);
        let (out0, sh0, v0, d0) = cmo_state(s0);
        let c = s.last();
        assert(s =~= s0 + seq![c]);
        lemma_strip_add(s0, seq![c]);
        lemma_strip_one(c);
        if c != SHADDA && c != SUPERSCRIPT_ALEF && !spec_is_vowel_mark(c) {
            lemma_strip_flush(sh0, v0, d0);
            lemma_strip_add(out0, flush(sh0, v0, d0));
            lemma_strip_add(out0 + flush(sh0, v0, d0), seq![c]);
        }
    } else {
        assert(spec_strip_marks(Seq::<char>::empty()) =~= Seq::<char>::empty()) by {
            reveal(Seq::filter);
        }
    }
}

/// Putting marks in canonical order twice changes nothing more than once, and the letters stay
/// as they were: only marks move or go.
pub proof fn law_canonical_mark_order_idempotent(s: Seq<char>)
    ensures
        spec_canonical_mark_order(spec_canonical_mark_order(s)) == spec_canonical_mark_order(s),
        spec_strip_marks(spec_canonical_mark_order(s)) == spec_strip_marks(s),
{
    lemma_cmo_out_settled(s);
    let (out, sh, v, d) = cmo_state(s);
    lemma_cmo_flush(out, sh, v, d);
    lemma_cmo_strip(s);
    lemma_strip_flush(sh, v, d);
    lemma_strip_add(out, flush(sh, v, d));
    assert(spec_strip_marks(out) + Seq::<char>::empty() =~= spec_strip_marks(out));
}

/// Every character the base form keeps or folds to is kept as it is.
proof fn lemma_normalize_char_fixed(c: char)
    ensures
        normalize_char(c) matches Some(x) ==> normalize_char(x) == Some(x),
{
}

/// The base form is already in base form: normalizing twice is normalizing once, and every
/// character of a base form is one that normalizing keeps.
pub proof fn law_normalize_word_idempotent(s: Seq<char>)
    ensures
        spec_normalize_word(spec_normalize_word(s)) == spec_normalize_word(s),
        forall|i: int|
            0 <= i < spec_normalize_word(s).len() ==> normalize_char(#[trigger] spec_normalize_word(s)[i])
                == Some(spec_normalize_word(s)[i]),
    decreases s.len(),
{
    if s.len() > 0 {
        let s0 = s.drop_last();
        law_normalize_word_idempotent(s0);
        let n0 = spec_normalize_word(s0);
        lemma_normalize_char_fixed(s.last());
        match normalize_char(s.last()) {
            Some(x) => {
                let n = n0.push(x);
                assert(n.drop_last() =~= n0);
                assert(n.last() == x);
                assert forall|i: int| 0 <= i < n.len() implies normalize_char(#[trigger] n[i]) == Some(n[i]) by {
                    if i < n0.len() {
                        assert(n[i] == n0[i]);
                    }
                }
            },
            None => {},
        }
    }
}

/// The last vowel-class mark of `m`, if any.
pub open spec fn last_vowel(m: Seq<char>) -> Option<char>
    decreases m.len(),
{
    if m.len() == 0 {
        None
    } else if spec_is_vowel_mark(m.last()) {
        Some(m.last())
    } else {
        last_vowel(m.drop_last())
    }
}

/// How a run of marks comes out: shadda if the run has one, then its last vowel-class mark, then
/// superscript alef if the run has one.
pub open spec fn run_layout(m: Seq<char>) -> Seq<char> {
    flush(m.contains(SHADDA), last_vowel(m), m.contains(SUPERSCRIPT_ALEF))
}

/// Reading a run of marks from a state with nothing pending pends the run's layout.
proof fn lemma_cmo_run(y: Seq<char>, m: Seq<char>)
    requires
        cmo_state(y).1 == false,
        cmo_state(y).2 == None::<char>,
        cmo_state(y).3 == false,
        forall|i: int| 0 <= i < m.len() ==> spec_is_mark(#[trigger] m[i]),
    ensures
        cmo_state(y + m) == (cmo_state(y).0, m.contains(SHADDA), last_vowel(m), m.contains(SUPERSCRIPT_ALEF)),
        last_vowel(m) matches Some(c) ==> spec_is_vowel_mark(c),
    decreases m.len(),
{
    if m.len() == 0 {
        assert(y + m =~= y);
    } else {
        let m0 = m.drop_last();
        let c = m.last();
        lemma_cmo_run(y, m0);
        assert((y + m).drop_last() =~= y + m0);
        assert((y + m).last() == c);
        assert(spec_is_mark(m[m.len() - 1]));
        assert(m.contains(SHADDA) == (m0.contains(SHADDA) || c == SHADDA)) by {
            if m.contains(SHADDA) && c != SHADDA {
                let k = choose|k: int| 0 <= k < m.len() && m[k] == SHADDA;
                assert(m0[k] == SHADDA);
            }
            if m0.contains(SHADDA) {
                let k = choose|k: int| 0 <= k < m0.len() && m0[k] == SHADDA;
                assert(m[k] == SHADDA);
            }
            if c == SHADDA {
                assert(m[m.len() - 1] == SHADDA);
            }
        }
        assert(m.contains(SUPERSCRIPT_ALEF) == (m0.contains(SUPERSCRIPT_ALEF) || c == SUPERSCRIPT_ALEF)) by {
            if m.contains(SUPERSCRIPT_ALEF) && c != SUPERSCRIPT_ALEF {
                let k = choose|k: int| 0 <= k < m.len() && m[k] == SUPERSCRIPT_ALEF;
                assert(m0[k] == SUPERSCRIPT_ALEF);
            }
            if m0.contains(SUPERSCRIPT_ALEF) {
                let k = choose|k: int| 0 <= k < m0.len() && m0[k] == SUPERSCRIPT_ALEF;
                assert(m[k] == SUPERSCRIPT_ALEF);
            }
            if c == SUPERSCRIPT_ALEF {
                assert(m[m.len() - 1] == SUPERSCRIPT_ALEF);
            }
        }
    }
}

/// The layout of each run of marks: after a letter `c`, a run `m` of marks comes out as shadda
/// (if the run has one), the run's last vowel/sukun/tanween, then superscript alef (if the run
/// has one); what comes before is ordered as on its own. A run with no letter before it is laid
/// out the same way.
pub proof fn law_mark_run_layout(x: Seq<char>, c: char, m: Seq<char>)
    requires
        !spec_is_mark(c),
        forall|i: int| 0 <= i < m.len() ==> spec_is_mark(#[trigger] m[i]),
    ensures
        spec_canonical_mark_order(x.push(c) + m) == spec_canonical_mark_order(x).push(c) + run_layout(m),
        spec_canonical_mark_order(m) == run_layout(m),
{
    let y = x.push(c);
    assert(y.drop_last() =~= x);
    assert(c != SHADDA && c != SUPERSCRIPT_ALEF && !spec_is_vowel_mark(c));
    assert(cmo_state(y).0 == spec_canonical_mark_order(x).push(c));
    lemma_cmo_run(y, m);
    lemma_cmo_run(Seq::<char>::empty(), m);
    assert(Seq::<char>::empty() + m =~= m);
    assert(cmo_state(Seq::<char>::empty()).0 + run_layout(m) =~= run_layout(m));
}

} // verus!
