//! Latin input normalization: folding, emphatic capitals, elongation.
use vstd::prelude::*;
use crate::text::{chars_of, push_char};

verus! {

/// One typed character as delivered by the front-end.
#[derive(Clone, Copy, Debug, PartialEq, Eq, Structural)]
pub struct InputChar {
    pub ch: char,
    /// True for numpad digits: forces the token to be a number.
    pub literal_digit: bool,
}

impl InputChar {
    pub fn new(ch: char) -> (r: Self)
        ensures
            r == (InputChar { ch, literal_digit: false }),
    {
        InputChar { ch, literal_digit: false }
    }

    pub fn numpad(ch: char) -> (r: Self)
        ensures
            r == (InputChar { ch, literal_digit: true }),
    {
        InputChar { ch, literal_digit: true }
    }
}

/// Internal emphatic symbols. Never displayed.
pub const EMPH_T: char = '\u{1}';
pub const EMPH_S: char = '\u{2}';
pub const EMPH_D: char = '\u{3}';
pub const EMPH_Z: char = '\u{4}';
pub const EMPH_H: char = '\u{5}';

pub open spec fn spec_emphatic_symbol(c: char) -> Option<char> {
    if c == 'T' {
        Some(EMPH_T)
    } else if c == 'S' {
        Some(EMPH_S)
    } else if c == 'D' {
        Some(EMPH_D)
    } else if c == 'Z' {
        Some(EMPH_Z)
    } else if c == 'H' {
        Some(EMPH_H)
    } else {
        None
    }
}

/// Map an uppercase emphatic letter to its internal symbol.
pub fn emphatic_symbol(c: char) -> (r: Option<char>)
    ensures
        r == spec_emphatic_symbol(c),
{
    match c {
        'T' => Some(EMPH_T),
        'S' => Some(EMPH_S),
        'D' => Some(EMPH_D),
        'Z' => Some(EMPH_Z),
        'H' => Some(EMPH_H),
        _ => None,
    }
}

pub open spec fn spec_fold(c: char) -> char {
    if c == 'à' || c == 'â' || c == 'ä' {
        'a'
    } else if c == 'À' || c == 'Â' || c == 'Ä' {
        'A'
    } else if c == 'é' || c == 'è' || c == 'ê' || c == 'ë' {
        'e'
    } else if c == 'É' || c == 'È' || c == 'Ê' || c == 'Ë' {
        'E'
    } else if c == 'î' || c == 'ï' {
        'i'
    } else if c == 'Î' || c == 'Ï' {
        'I'
    } else if c == 'ô' || c == 'ö' {
        'o'
    } else if c == 'Ô' || c == 'Ö' {
        'O'
    } else if c == 'ù' || c == 'û' || c == 'ü' {
        'u'
    } else if c == 'Ù' || c == 'Û' || c == 'Ü' {
        'U'
    } else if c == 'ç' {
        's'
    } else if c == 'Ç' {
        'S'
    } else if c == 'ñ' {
        'n'
    } else if c == 'Ñ' {
        'N'
    } else if c == '’' || c == '‘' || c == 'ʼ' || c == '´' || c == '`' {
        '\''
    } else {
        c
    }
}

/// Fold accented Latin letters and apostrophe variants.
pub fn fold(c: char) -> (r: char)
    ensures
        r == spec_fold(c),
{
    match c {
        'à' | 'â' | 'ä' => 'a',
        'À' | 'Â' | 'Ä' => 'A',
        'é' | 'è' | 'ê' | 'ë' => 'e',
        'É' | 'È' | 'Ê' | 'Ë' => 'E',
        'î' | 'ï' => 'i',
        'Î' | 'Ï' => 'I',
        'ô' | 'ö' => 'o',
        'Ô' | 'Ö' => 'O',
        'ù' | 'û' | 'ü' => 'u',
        'Ù' | 'Û' | 'Ü' => 'U',
        'ç' => 's',
        'Ç' => 'S',
        'ñ' => 'n',
        'Ñ' => 'N',
        '’' | '‘' | 'ʼ' | '´' | '`' => '\'',
        c => c,
    }
}

pub open spec fn ascii_upper(c: char) -> bool {
    'A' <= c <= 'Z'
}

pub open spec fn ascii_alpha(c: char) -> bool {
    ascii_upper(c) || ('a' <= c <= 'z')
}

pub open spec fn ascii_digit(c: char) -> bool {
    '0' <= c <= '9'
}

/// `c` in lower case when it is an ASCII capital.
pub open spec fn lower_of(c: char) -> char {
    if ascii_upper(c) {
        ((c as u32) + 32) as char
    } else {
        c
    }
}

pub fn to_lower(c: char) -> (r: char)
    ensures
        r == lower_of(c),
{
    if 'A' <= c && c <= 'Z' {
        let b = (c as u32) + 32;
        let r = (b as u8) as char;
        assert(r == ((c as u32) + 32) as char);
        r
    } else {
        c
    }
}

pub open spec fn spec_is_token_char(c: char) -> bool {
    let f = spec_fold(c);
    ascii_alpha(f) || ascii_digit(f) || f == '\''
}

/// True if the character can be part of an Arabizi token (after folding).
pub fn is_token_char(c: char) -> (r: bool)
    ensures
        r == spec_is_token_char(c),
{
    let f = fold(c);
    ('A' <= f && f <= 'Z') || ('a' <= f && f <= 'z') || ('0' <= f && f <= '9') || f == '\''
}

/// Printable form of a normalized symbol (emphatics shown as uppercase).
pub open spec fn spec_symbol_display(c: char) -> char {
    if c == EMPH_T {
        'T'
    } else if c == EMPH_S {
        'S'
    } else if c == EMPH_D {
        'D'
    } else if c == EMPH_Z {
        'Z'
    } else if c == EMPH_H {
        'H'
    } else {
        c
    }
}

/// Printable form of a normalized symbol (emphatics shown as uppercase) for debugging output.
pub fn symbol_display(c: char) -> (r: char)
    ensures
        r == spec_symbol_display(c),
{
    match c {
        EMPH_T => 'T',
        EMPH_S => 'S',
        EMPH_D => 'D',
        EMPH_Z => 'Z',
        EMPH_H => 'H',
        c => c,
    }
}

// ---------------------------------------------------------------------------------------------
// Normalized symbols.

pub open spec fn folded(raw: Seq<InputChar>) -> Seq<char> {
    raw.map_values(|x: InputChar| spec_fold(x.ch))
}

pub open spec fn count_alpha(s: Seq<char>) -> nat
    decreases s.len(),
{
    if s.len() == 0 {
        0
    } else {
        count_alpha(s.drop_last()) + if ascii_alpha(s.last()) { 1nat } else { 0nat }
    }
}

/// At least two letters, all of them capitals: the whole word was typed in caps.
pub open spec fn all_caps(f: Seq<char>) -> bool {
    count_alpha(f) >= 2 && forall|i: int| 0 <= i < f.len() && ascii_alpha(f[i]) ==> ascii_upper(f[i])
}

/// The symbol of folded character `c`: a capital is an emphatic (T, S, D, Z, H) except as the
/// first letter or in an all-caps word (`plain`); other capitals are lowered.
pub open spec fn sym_of(c: char, plain: bool) -> char {
    if ascii_upper(c) {
        if plain {
            lower_of(c)
        } else {
            match spec_emphatic_symbol(c) {
                Some(e) => e,
                None => lower_of(c),
            }
        }
    } else {
        c
    }
}

/// `s` with every run of three or more identical symbols cut to two.
pub open spec fn collapse(s: Seq<char>) -> Seq<char>
    decreases s.len(),
{
    if s.len() == 0 {
        Seq::empty()
    } else {
        let p = collapse(s.drop_last());
        let x = s.last();
        if p.len() >= 2 && p[p.len() - 1] == x && p[p.len() - 2] == x {
            p
        } else {
            p.push(x)
        }
    }
}

/// The normalized symbols of what was typed.
pub open spec fn spec_syms(raw: Seq<InputChar>) -> Seq<char> {
    let f = folded(raw);
    let caps = all_caps(f);
    collapse(Seq::new(f.len(), |i: int| sym_of(f[i], i == 0 || caps)))
}

fn normalize_syms(raw: &Vec<InputChar>) -> (syms: Vec<char>)
    ensures
        syms@ == spec_syms(raw@),
{
    let n = raw.len();
    let mut f: Vec<char> = Vec::new();
    let mut i: usize = 0;
    while i < n
        invariant
            i <= n,
            n == raw.len(),
            f@ =~= folded(raw@).take(i as int),
        decreases n - i,
    {
        f.push(fold(raw[i].ch));
        i += 1;
    }
    assert(folded(raw@).take(n as int) =~= folded(raw@));
    let mut letters: usize = 0;
    let mut upper = true;
    let mut i: usize = 0;
    while i < n
        invariant
            i <= n,
            n == f.len(),
            letters == count_alpha(f@.take(i as int)),
            letters <= i,
            upper == (forall|j: int| 0 <= j < i && ascii_alpha(f@[j]) ==> ascii_upper(f@[j])),
        decreases n - i,
    {
        assert(f@.take(i + 1).drop_last() =~= f@.take(i as int));
        let c = f[i];
        if ('A' <= c && c <= 'Z') || ('a' <= c && c <= 'z') {
            letters += 1;
            if !('A' <= c && c <= 'Z') {
                upper = false;
            }
        }
        i += 1;
    }
    assert(f@.take(n as int) =~= f@);
    let caps = letters >= 2 && upper;
    let ghost sy = Seq::new(f@.len(), |k: int| sym_of(f@[k], k == 0 || caps));
    let mut syms: Vec<char> = Vec::new();
    let mut i: usize = 0;
    while i < n
        invariant
            i <= n,
            n == f.len(),
            sy == Seq::new(f@.len(), |k: int| sym_of(f@[k], k == 0 || caps)),
            syms@ == collapse(sy.take(i as int)),
        decreases n - i,
    {
        assert(sy.take(i + 1).drop_last() =~= sy.take(i as int));
        let c = f[i];
        let s = if 'A' <= c && c <= 'Z' {
            if i == 0 || caps {
                to_lower(c)
            } else {
                match emphatic_symbol(c) {
                    Some(e) => e,
                    None => to_lower(c),
                }
            }
        } else {
            c
        };
        assert(s == sy[i as int]);
        // Elongation: a run of three or more identical symbols collapses to two.
        let m = syms.len();
        if !(m >= 2 && syms[m - 1] == s && syms[m - 2] == s) {
            syms.push(s);
        }
        i += 1;
    }
    assert(sy.take(n as int) =~= sy);
    syms
}

fn copy_raw(v: &Vec<InputChar>) -> (r: Vec<InputChar>)
    ensures
        r@ == v@,
{
    let mut r: Vec<InputChar> = Vec::new();
    let mut i: usize = 0;
    while i < v.len()
        invariant
            i <= v.len(),
            r@ =~= v@.take(i as int),
        decreases v.len() - i,
    {
        r.push(v[i]);
        i += 1;
    }
    assert(v@.take(v.len() as int) =~= v@);
    r
}

/// The typed characters of `s` that can be part of a token.
pub open spec fn token_input(s: Seq<char>) -> Seq<InputChar>
    decreases s.len(),
{
    if s.len() == 0 {
        Seq::empty()
    } else if spec_is_token_char(s.last()) {
        token_input(s.drop_last()).push(InputChar { ch: s.last(), literal_digit: false })
    } else {
        token_input(s.drop_last())
    }
}

/// A symbol as it appears in a lookup key: emphatics lowered back to ASCII.
pub open spec fn key_char(c: char) -> char {
    if c == EMPH_T {
        't'
    } else if c == EMPH_S {
        's'
    } else if c == EMPH_D {
        'd'
    } else if c == EMPH_Z {
        'z'
    } else if c == EMPH_H {
        'h'
    } else {
        c
    }
}

/// The lookup key of symbols `s`: emphatics lowered, apostrophes dropped.
pub open spec fn spec_key(s: Seq<char>) -> Seq<char>
    decreases s.len(),
{
    if s.len() == 0 {
        Seq::empty()
    } else if key_char(s.last()) == '\'' {
        spec_key(s.drop_last())
    } else {
        spec_key(s.drop_last()).push(key_char(s.last()))
    }
}

/// Every typed character can be part of a token.
pub open spec fn tokens_only(t: Seq<InputChar>) -> bool {
    forall|i: int| 0 <= i < t.len() ==> spec_is_token_char(#[trigger] t[i].ch)
}

proof fn lemma_token_input_tokens(s: Seq<char>)
    ensures
        tokens_only(token_input(s)),
    decreases s.len(),
{
    if s.len() > 0 {
        lemma_token_input_tokens(s.drop_last());
    }
}

/// The Latin buffer of the word being typed: raw text + normalized symbols.
#[derive(Debug)]
pub struct LatinBuffer {
    raw: Vec<InputChar>,
    syms: Vec<char>,
}

impl LatinBuffer {
    #[verifier::type_invariant]
    closed spec fn syms_match(self) -> bool {
        &&& self.syms@ == spec_syms(self.raw@)
        &&& tokens_only(self.raw@)
    }

    /// What was typed, in order.
    pub closed spec fn typed(&self) -> Seq<InputChar> {
        self.raw@
    }

    pub fn new() -> (b: Self)
        ensures
            b.typed() == Seq::<InputChar>::empty(),
    {
        let raw: Vec<InputChar> = Vec::new();
        let syms = normalize_syms(&raw);
        LatinBuffer { raw, syms }
    }

    /// Append a character. Returns false (and changes nothing) if it cannot be part of a token.
    pub fn push(&mut self, c: InputChar) -> (r: bool)
        ensures
            r == spec_is_token_char(c.ch),
            final(self).typed() == if r {
                old(self).typed().push(c)
            } else {
                old(self).typed()
            },
    {
        if !is_token_char(c.ch) {
            return false;
        }
        let mut raw = copy_raw(&self.raw);
        raw.push(c);
        let syms = normalize_syms(&raw);
        proof {
            use_type_invariant(&*self);
            assert forall|i: int| 0 <= i < raw@.len() implies spec_is_token_char(#[trigger] raw@[i].ch) by {
                if i < raw@.len() - 1 {
                    assert(raw@[i] == self.raw@[i]);
                }
            }
        }
        *self = LatinBuffer { raw, syms };
        true
    }

    /// Remove the last raw character. Returns false if empty.
    pub fn pop(&mut self) -> (r: bool)
        ensures
            r == (old(self).typed().len() > 0),
            final(self).typed() == if r {
                old(self).typed().drop_last()
            } else {
                old(self).typed()
            },
    {
        proof {
            use_type_invariant(&*self);
        }
        let mut raw = copy_raw(&self.raw);
        if raw.pop().is_none() {
            return false;
        }
        let syms = normalize_syms(&raw);
        assert(forall|i: int| 0 <= i < raw@.len() ==> raw@[i] == self.raw@[i]);
        *self = LatinBuffer { raw, syms };
        true
    }

    pub fn clear(&mut self)
        ensures
            final(self).typed() == Seq::<InputChar>::empty(),
    {
        *self = LatinBuffer::new();
    }

    /// Replace the buffer with the token characters of `latin`.
    pub fn set(&mut self, latin: &str)
        ensures
            final(self).typed() == token_input(latin@),
    {
        let cs = chars_of(latin);
        let mut raw: Vec<InputChar> = Vec::new();
        let mut i: usize = 0;
        while i < cs.len()
            invariant
                i <= cs.len(),
                cs@ == latin@,
                raw@ == token_input(cs@.take(i as int)),
            decreases cs.len() - i,
        {
            assert(cs@.take(i + 1).drop_last() =~= cs@.take(i as int));
            if is_token_char(cs[i]) {
                raw.push(InputChar::new(cs[i]));
            }
            i += 1;
        }
        assert(cs@.take(cs.len() as int) =~= cs@);
        let syms = normalize_syms(&raw);
        proof {
            lemma_token_input_tokens(latin@);
        }
        *self = LatinBuffer { raw, syms };
    }

    pub fn is_empty(&self) -> (r: bool)
        ensures
            r == (self.typed().len() == 0),
    {
        self.raw.len() == 0
    }

    /// Exactly what was typed (for the raw-Latin candidate and Esc).
    pub fn raw(&self) -> (r: String)
        ensures
            r@ == self.typed().map_values(|c: InputChar| c.ch),
            tokens_only(self.typed()),
    {
        proof {
            use_type_invariant(self);
        }
        let mut out = String::new();
        let mut i: usize = 0;
        while i < self.raw.len()
            invariant
                i <= self.raw.len(),
                out@ =~= self.raw@.take(i as int).map_values(|c: InputChar| c.ch),
            decreases self.raw.len() - i,
        {
            push_char(&mut out, self.raw[i].ch);
            i += 1;
        }
        assert(self.raw@.take(self.raw.len() as int) =~= self.raw@);
        out
    }

    /// Normalized symbols (lowercase, emphatic symbols, elongation collapsed).
    pub fn syms(&self) -> (r: &[char])
        ensures
            r@ == spec_syms(self.typed()),
            tokens_only(self.typed()),
    {
        proof {
            use_type_invariant(self);
        }
        self.syms.as_slice()
    }

    /// Normalized key with emphatics lowered back to ASCII and apostrophes dropped (for phrase
    /// and user-model keys).
    pub fn key(&self) -> (r: String)
        ensures
            r@ == spec_key(spec_syms(self.typed())),
    {
        proof {
            use_type_invariant(self);
        }
        let mut out = String::new();
        let mut i: usize = 0;
        while i < self.syms.len()
            invariant
                i <= self.syms.len(),
                out@ == spec_key(self.syms@.take(i as int)),
            decreases self.syms.len() - i,
        {
            assert(self.syms@.take(i + 1).drop_last() =~= self.syms@.take(i as int));
            let c = match self.syms[i] {
                EMPH_T => 't',
                EMPH_S => 's',
                EMPH_D => 'd',
                EMPH_Z => 'z',
                EMPH_H => 'h',
                c => c,
            };
            if c != '\'' {
                push_char(&mut out, c);
            }
            i += 1;
        }
        assert(self.syms@.take(self.syms.len() as int) =~= self.syms@);
        out
    }

    /// The token is a number: all digits, or it holds a literal (numpad) digit.
    pub fn is_number(&self) -> (r: bool)
        ensures
            r == (self.typed().len() > 0 && ((exists|i: int|
                0 <= i < self.typed().len() && #[trigger] self.typed()[i].literal_digit) || (
            forall|i: int| 0 <= i < self.typed().len() ==> ascii_digit(#[trigger] self.typed()[i].ch)))),
    {
        if self.raw.len() == 0 {
            return false;
        }
        let mut literal = false;
        let mut digits = true;
        let mut i: usize = 0;
        while i < self.raw.len()
            invariant
                i <= self.raw.len(),
                literal == (exists|j: int| 0 <= j < i && #[trigger] self.raw@[j].literal_digit),
                digits == (forall|j: int| 0 <= j < i ==> ascii_digit(#[trigger] self.raw@[j].ch)),
            decreases self.raw.len() - i,
        {
            let c = self.raw[i];
            if c.literal_digit {
                literal = true;
            }
            if !('0' <= c.ch && c.ch <= '9') {
                digits = false;
            }
            i += 1;
        }
        literal || digits
    }
}

impl Clone for LatinBuffer {
    fn clone(&self) -> (b: Self)
        ensures
            b.typed() == self.typed(),
    {
        proof {
            use_type_invariant(self);
        }
        let raw = copy_raw(&self.raw);
        let syms = normalize_syms(&raw);
        LatinBuffer { raw, syms }
    }
}

impl Default for LatinBuffer {
    fn default() -> (b: Self)
        ensures
            b.typed() == Seq::<InputChar>::empty(),
    {
        LatinBuffer::new()
    }
}

// ---------------------------------------------------------------------------------------------
// Laws.

/// Backspace after a keystroke gives back the buffer as it was: the same typed characters and so
/// the same symbols.
pub proof fn law_pop_undoes_push(typed: Seq<InputChar>, c: InputChar)
    ensures
        typed.push(c).drop_last() == typed,
        spec_syms(typed.push(c).drop_last()) == spec_syms(typed),
{
    assert(typed.push(c).drop_last() =~= typed);
}

/// Elongation never survives normalization: no symbol occurs three times in a row.
pub proof fn law_no_triple_runs(s: Seq<char>)
    ensures
        forall|i: int|
            0 <= i && i + 2 < collapse(s).len() ==> !(#[trigger] collapse(s)[i] == collapse(s)[i + 1]
                && collapse(s)[i + 1] == collapse(s)[i + 2]),
    decreases s.len(),
{
    if s.len() > 0 {
        law_no_triple_runs(s.drop_last());
        let p = collapse(s.drop_last());
        let q = collapse(s);
        if q != p {
            assert forall|i: int| 0 <= i && i + 2 < q.len() implies !(#[trigger] q[i] == q[i + 1]
                && q[i + 1] == q[i + 2]) by {
                if i + 2 < p.len() {
                    assert(q[i] == p[i] && q[i + 1] == p[i + 1] && q[i + 2] == p[i + 2]);
                }
            }
        }
    }
}

/// Typing a character is setting the text with that character appended: `set(t + c)` leaves
/// the buffer as `set(t)` followed by `push(c)` does (a non-token character changes neither),
/// and so the symbols agree.
pub proof fn law_set_is_pushes(t: Seq<char>, c: char)
    ensures
        token_input(t.push(c)) == if spec_is_token_char(c) {
            token_input(t).push(InputChar { ch: c, literal_digit: false })
        } else {
            token_input(t)
        },
        spec_syms(token_input(t.push(c))) == if spec_is_token_char(c) {
            spec_syms(token_input(t).push(InputChar { ch: c, literal_digit: false }))
        } else {
            spec_syms(token_input(t))
        },
{
    assert(t.push(c).drop_last() =~= t);
    assert(t.push(c).last() == c);
}

proof fn lemma_token_input_of_tokens(t: Seq<InputChar>)
    requires
        tokens_only(t),
    ensures
        token_input(t.map_values(|c: InputChar| c.ch)) == t.map_values(
            |c: InputChar| InputChar { ch: c.ch, literal_digit: false },
        ),
    decreases t.len(),
{
    let cs = t.map_values(|c: InputChar| c.ch);
    if t.len() > 0 {
        let t0 = t.drop_last();
        assert(tokens_only(t0)) by {
            assert forall|i: int| 0 <= i < t0.len() implies spec_is_token_char(#[trigger] t0[i].ch) by {
                assert(t0[i] == t[i]);
            }
        }
        lemma_token_input_of_tokens(t0);
        assert(cs.drop_last() =~= t0.map_values(|c: InputChar| c.ch));
        assert(cs.last() == t.last().ch);
        assert(spec_is_token_char(t[t.len() - 1].ch));
        assert(t.map_values(|c: InputChar| InputChar { ch: c.ch, literal_digit: false }) =~= t0.map_values(
            |c: InputChar| InputChar { ch: c.ch, literal_digit: false },
        ).push(InputChar { ch: t.last().ch, literal_digit: false }));
    } else {
        assert(cs =~= Seq::<char>::empty());
        assert(t.map_values(|c: InputChar| InputChar { ch: c.ch, literal_digit: false }) =~= Seq::<
            InputChar,
        >::empty());
    }
}

/// Rebuilding a buffer from its raw text gives the same symbols: whatever a buffer holds was
/// typed as token characters, so `set(raw())` on a fresh buffer keeps every one of them, and the
/// symbols do not depend on how a digit was typed.
pub proof fn law_rebuild_from_raw(t: Seq<InputChar>)
    requires
        tokens_only(t),
    ensures
        spec_syms(token_input(t.map_values(|c: InputChar| c.ch))) == spec_syms(t),
{
    lemma_token_input_of_tokens(t);
    let u = t.map_values(|c: InputChar| InputChar { ch: c.ch, literal_digit: false });
    assert(folded(u) =~= folded(t));
}

/// The lookup key lowers every typed letter: for any character a token can hold once folded (an
/// ASCII letter, digit or apostrophe), the key character of its symbol, emphatic or not, is the
/// character in lower case; so an emphatic capital T, S, D, Z or H comes back as t, s, d, z or
/// h, and no key character is a capital or an emphatic symbol.
pub proof fn law_key_lowers_typed_letters(x: char, plain: bool)
    requires
        ascii_alpha(x) || ascii_digit(x) || x == '\'',
    ensures
        key_char(sym_of(x, plain)) == lower_of(x),
        !ascii_upper(key_char(sym_of(x, plain))),
        key_char(sym_of(x, plain)) != EMPH_T && key_char(sym_of(x, plain)) != EMPH_S && key_char(
            sym_of(x, plain),
        ) != EMPH_D && key_char(sym_of(x, plain)) != EMPH_Z && key_char(sym_of(x, plain)) != EMPH_H,
{
}

} // verus!
