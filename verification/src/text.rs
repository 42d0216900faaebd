//! Character-level text helpers shared by the modules that read and build strings.
use vstd::prelude::*;

verus! {

/// `String::push`: appends one character.
#[verifier::external_body]
pub(crate) fn push_char(s: &mut String, c: char)
    ensures
        final(s)@ == old(s)@.push(c),
{
    s.push(c);
}

/// The characters of `s`, in order.
pub fn chars_of(s: &str) -> (v: Vec<char>)
    ensures
        v@ == s@,
{
    let mut v: Vec<char> = Vec::new();
    broadcast use vstd::string::group_string_axioms;
    let mut it = s.chars();
    loop
        invariant
            v@ + vstd::std_specs::iter::IteratorSpec::remaining(&it) == s@,
            vstd::std_specs::iter::IteratorSpec::decrease(&it) is Some,
            vstd::std_specs::iter::IteratorSpec::obeys_prophetic_iter_laws(&it),
        ensures
            v@ == s@,
        decreases vstd::std_specs::iter::IteratorSpec::decrease(&it)->0,
    {
        let ghost before = vstd::std_specs::iter::IteratorSpec::remaining(&it);
        match it.next() {
            Some(c) => {
                v.push(c);
                assert(v@ + vstd::std_specs::iter::IteratorSpec::remaining(&it) =~= s@);
            },
            None => {
                assert(v@ =~= s@);
                break;
            },
        }
    }
    v
}

/// A `String` holding exactly the characters `v`.
pub fn string_of(v: &[char]) -> (s: String)
    ensures
        s@ == v@,
{
    let mut s = String::new();
    let mut i: usize = 0;
    while i < v.len()
        invariant
            i <= v@.len(),
            s@ == v@.take(i as int),
        decreases v@.len() - i,
    {
        push_char(&mut s, v[i]);
        assert(v@.take(i as int).push(v@[i as int]) =~= v@.take(i + 1));
        i += 1;
    }
    assert(v@.take(v@.len() as int) =~= v@);
    s
}

/// Whether `a` and `b` hold the same characters.
pub fn str_eq(a: &str, b: &str) -> (r: bool)
    ensures
        r == (a@ == b@),
{
    let x = chars_of(a);
    let y = chars_of(b);
    if x.len() != y.len() {
        return false;
    }
    let mut i: usize = 0;
    while i < x.len()
        invariant
            i <= x.len(),
            x.len() == y.len(),
            x@ == a@,
            y@ == b@,
            forall|j: int| 0 <= j < i ==> x@[j] == y@[j],
        decreases x.len() - i,
    {
        if x[i] != y[i] {
            assert(x@[i as int] != y@[i as int]);
            return false;
        }
        i += 1;
    }
    assert(x@ =~= y@);
    true
}

/// White space as Rust's `char::is_whitespace` has it (the Unicode White_Space property).
pub open spec fn is_ws(c: char) -> bool {
    ('\u{9}' <= c <= '\u{D}') || c == ' ' || c == '\u{85}' || c == '\u{A0}' || c == '\u{1680}'
        || ('\u{2000}' <= c <= '\u{200A}') || c == '\u{2028}' || c == '\u{2029}' || c
        == '\u{202F}' || c == '\u{205F}' || c == '\u{3000}'
}

pub fn is_whitespace(c: char) -> (r: bool)
    ensures
        r == is_ws(c),
{
    ('\u{9}' <= c && c <= '\u{D}') || c == ' ' || c == '\u{85}' || c == '\u{A0}' || c
        == '\u{1680}' || ('\u{2000}' <= c && c <= '\u{200A}') || c == '\u{2028}' || c
        == '\u{2029}' || c == '\u{202F}' || c == '\u{205F}' || c == '\u{3000}'
}

/// The first index at or after `i` that is not white space (or the length).
pub open spec fn first_non_ws(s: Seq<char>, i: int) -> int
    decreases s.len() - i,
{
    if i >= s.len() {
        s.len() as int
    } else if is_ws(s[i]) {
        first_non_ws(s, i + 1)
    } else {
        i
    }
}

/// The end of `s.take(j)` once trailing white space is dropped.
pub open spec fn end_non_ws(s: Seq<char>, j: int) -> int
    decreases j,
{
    if j <= 0 {
        0
    } else if is_ws(s[j - 1]) {
        end_non_ws(s, j - 1)
    } else {
        j
    }
}

/// `s` without leading and trailing white space.
pub open spec fn spec_trim(s: Seq<char>) -> Seq<char> {
    let a = first_non_ws(s, 0);
    let b = end_non_ws(s, s.len() as int);
    if a >= b {
        Seq::empty()
    } else {
        s.subrange(a, b)
    }
}

/// The characters of `s` without leading and trailing white space.
pub fn trim_chars(s: &[char]) -> (r: Vec<char>)
    ensures
        r@ == spec_trim(s@),
{
    let n = s.len();
    let mut a: usize = 0;
    while a < n && is_whitespace(s[a])
        invariant
            a <= n,
            n == s@.len(),
            first_non_ws(s@, 0) == first_non_ws(s@, a as int),
        decreases n - a,
    {
        a += 1;
    }
    let mut b: usize = n;
    while b > 0 && is_whitespace(s[b - 1])
        invariant
            b <= n,
            n == s@.len(),
            end_non_ws(s@, n as int) == end_non_ws(s@, b as int),
        decreases b,
    {
        b -= 1;
    }
    let mut r: Vec<char> = Vec::new();
    if a < b {
        let mut i: usize = a;
        while i < b
            invariant
                a <= i <= b,
                b <= n,
                n == s@.len(),
                r@ =~= s@.subrange(a as int, i as int),
            decreases b - i,
        {
            r.push(s[i]);
            i += 1;
        }
    }
    r
}

/// `s` cut at every `sep` (an empty text is one empty piece).
pub open spec fn split_on(s: Seq<char>, sep: char) -> Seq<Seq<char>>
    decreases s.len(),
{
    if s.len() == 0 {
        seq![Seq::empty()]
    } else {
        let p = split_on(s.drop_last(), sep);
        let c = s.last();
        if c == sep {
            p.push(Seq::empty())
        } else {
            p.update(p.len() - 1, p.last().push(c))
        }
    }
}

/// Pieces joined with `sep`.
pub open spec fn join_on(ws: Seq<Seq<char>>, sep: char) -> Seq<char>
    decreases ws.len(),
{
    if ws.len() == 0 {
        Seq::empty()
    } else if ws.len() == 1 {
        ws[0]
    } else {
        join_on(ws.drop_last(), sep) + seq![sep] + ws.last()
    }
}

pub proof fn lemma_split_nonempty(s: Seq<char>, sep: char)
    ensures
        split_on(s, sep).len() >= 1,
    decreases s.len(),
{
    if s.len() > 0 {
        lemma_split_nonempty(s.drop_last(), sep);
    }
}

/// The pieces of `text` cut at `sep`.
pub fn split_chars(text: &[char], sep: char) -> (ws: Vec<Vec<char>>)
    ensures
        ws@.map_values(|w: Vec<char>| w@) == split_on(text@, sep),
{
    let mut ws: Vec<Vec<char>> = Vec::new();
    let mut cur: Vec<char> = Vec::new();
    let mut i: usize = 0;
    while i < text.len()
        invariant
            i <= text@.len(),
            ws@.map_values(|w: Vec<char>| w@).push(cur@) == split_on(text@.take(i as int), sep),
        decreases text@.len() - i,
    {
        proof {
            lemma_split_nonempty(text@.take(i as int), sep);
        }
        assert(text@.take(i + 1).drop_last() =~= text@.take(i as int));
        let c = text[i];
        let ghost before = ws@.map_values(|w: Vec<char>| w@);
        let ghost oc = cur@;
        if c == sep {
            ws.push(cur);
            cur = Vec::new();
            assert(ws@.map_values(|w: Vec<char>| w@) =~= before.push(oc));
            assert(ws@.map_values(|w: Vec<char>| w@).push(cur@) =~= before.push(oc).push(
                Seq::empty(),
            ));
        } else {
            cur.push(c);
            assert(ws@.map_values(|w: Vec<char>| w@).push(cur@) =~= before.push(oc).update(
                before.len() as int,
                oc.push(c),
            ));
        }
        i += 1;
    }
    assert(text@.take(text@.len() as int) =~= text@);
    ws.push(cur);
    ws
}

/// Appends the characters `v` to `s`.
pub(crate) fn push_chars(s: &mut String, v: &[char])
    ensures
        final(s)@ == old(s)@ + v@,
{
    let mut i: usize = 0;
    while i < v.len()
        invariant
            i <= v@.len(),
            s@ == old(s)@ + v@.take(i as int),
        decreases v@.len() - i,
    {
        push_char(s, v[i]);
        assert(v@.take(i + 1) =~= v@.take(i as int).push(v@[i as int]));
        i += 1;
    }
    assert(v@.take(v@.len() as int) =~= v@);
}

/// Appends the characters of `t` to `s`.
pub fn push_str(s: &mut String, t: &str)
    ensures
        final(s)@ == old(s)@ + t@,
{
    let v = chars_of(t);
    push_chars(s, v.as_slice());
}

pub open spec fn digit_char(d: int) -> char {
    (48 + d) as char
}

/// The decimal digits of `n`.
pub open spec fn decimal(n: nat) -> Seq<char>
    decreases n,
{
    if n < 10 {
        seq![digit_char(n as int)]
    } else {
        decimal(n / 10).push(digit_char((n % 10) as int))
    }
}

/// Appends the decimal digits of `n`.
pub fn push_decimal(s: &mut String, n: u64)
    ensures
        final(s)@ == old(s)@ + decimal(n as nat),
    decreases n,
{
    if n >= 10 {
        push_decimal(s, n / 10);
    }
    let d = (n % 10) as u8;
    let c = (48u8 + d) as char;
    assert(c == digit_char((n % 10) as int));
    push_char(s, c);
    assert(final(s)@ =~= old(s)@ + decimal(n as nat));
}

/// `n` in decimal, with a minus sign when negative.
pub open spec fn int_text(n: int) -> Seq<char> {
    if n < 0 {
        seq!['-'] + decimal((-n) as nat)
    } else {
        decimal(n as nat)
    }
}

/// Appends `n` in decimal, with a minus sign when negative.
pub fn push_int(s: &mut String, n: i64)
    ensures
        final(s)@ == old(s)@ + int_text(n as int),
{
    if n < 0 {
        push_char(s, '-');
        let m: u64 = if n == i64::MIN {
            9223372036854775808u64
        } else {
            (-n) as u64
        };
        push_decimal(s, m);
        assert(final(s)@ =~= old(s)@ + int_text(n as int));
    } else {
        push_decimal(s, n as u64);
    }
}

pub open spec fn is_digit(c: char) -> bool {
    '0' <= c <= '9'
}

/// The value of the decimal digits `d`.
pub open spec fn digits_value(d: Seq<char>) -> nat
    decreases d.len(),
{
    if d.len() == 0 {
        0
    } else {
        10 * digits_value(d.drop_last()) + ((d.last() as int - 48) as nat)
    }
}

pub proof fn lemma_digits_prefix_pub(d: Seq<char>, k: int)
    requires
        0 <= k <= d.len(),
        forall|i: int| 0 <= i < d.len() ==> is_digit(#[trigger] d[i]),
    ensures
        digits_value(d.take(k)) <= digits_value(d),
{
    lemma_digits_prefix(d, k);
}

proof fn lemma_digits_prefix(d: Seq<char>, k: int)
    requires
        0 <= k <= d.len(),
        forall|i: int| 0 <= i < d.len() ==> is_digit(#[trigger] d[i]),
    ensures
        digits_value(d.take(k)) <= digits_value(d),
    decreases d.len() - k,
{
    if k < d.len() {
        lemma_digits_prefix(d, k + 1);
        let t = d.take(k + 1);
        assert(t.drop_last() =~= d.take(k));
        assert(t.last() == d[k]);
        assert(is_digit(d[k]));
        assert(digits_value(t) == 10 * digits_value(d.take(k)) + ((d[k] as int - 48) as nat));
    } else {
        assert(d.take(k) =~= d);
    }
}

/// The digits after an optional sign.
pub open spec fn unsigned_part(s: Seq<char>) -> Seq<char> {
    if s.len() > 0 && (s[0] == '-' || s[0] == '+') {
        s.skip(1)
    } else {
        s
    }
}

pub open spec fn all_digits(d: Seq<char>) -> bool {
    forall|i: int| 0 <= i < d.len() ==> is_digit(#[trigger] d[i])
}

/// What Rust's `i64::from_str` makes of `s`: an optional sign, then one or more decimal digits,
/// within the range of `i64`.
pub open spec fn spec_parse_i64(s: Seq<char>) -> Option<int> {
    let digits = unsigned_part(s);
    if s.len() == 0 || digits.len() == 0 || !all_digits(digits) {
        None
    } else {
        let v: int = if s[0] == '-' {
            -(digits_value(digits) as int)
        } else {
            digits_value(digits) as int
        };
        if i64::MIN <= v <= i64::MAX {
            Some(v)
        } else {
            None
        }
    }
}

/// `i64::from_str` on characters: an optional sign and decimal digits, in range.
pub fn parse_i64(s: &[char]) -> (r: Option<i64>)
    ensures
        r is None ==> spec_parse_i64(s@) is None,
        r matches Some(n) ==> spec_parse_i64(s@) == Some(n as int),
{
    let n = s.len();
    if n == 0 {
        return None;
    }
    let neg = s[0] == '-';
    let start: usize = if s[0] == '-' || s[0] == '+' { 1 } else { 0 };
    let ghost digits = unsigned_part(s@);
    assert(digits =~= s@.subrange(start as int, n as int));
    if start == n {
        return None;
    }
    let limit: u64 = if neg { 9223372036854775808u64 } else { 9223372036854775807u64 };
    let mut v: u64 = 0;
    let mut over = false;
    let mut i: usize = start;
    while i < n
        invariant
            start <= i <= n,
            n == s@.len(),
            n > 0,
            neg == (s@[0] == '-'),
            start == (if s@[0] == '-' || s@[0] == '+' { 1usize } else { 0usize }),
            limit == (if neg { 9223372036854775808u64 } else { 9223372036854775807u64 }),
            digits == unsigned_part(s@),
            digits =~= s@.subrange(start as int, n as int),
            forall|j: int| 0 <= j < i - start ==> is_digit(#[trigger] digits[j]),
            !over ==> v == digits_value(digits.take(i - start)),
            !over ==> v <= limit,
            over ==> all_digits(digits) ==> digits_value(digits) > limit,
        decreases n - i,
    {
        let c = s[i];
        if !('0' <= c && c <= '9') {
            let ghost j: int = i - start;
            assert(0 <= j < digits.len());
            assert(!is_digit(digits[j]));
            assert(!all_digits(digits));
            return None;
        }
        assert(digits.take(i - start + 1).drop_last() =~= digits.take(i - start));
        if !over {
            let d = (c as u32 - 48) as u64;
            if v > (limit - d) / 10 {
                over = true;
                proof {
                    assert(10 * (v as int) + (d as int) > limit as int) by (nonlinear_arith)
                        requires
                            v > (limit - d) / 10,
                            d <= 9,
                            limit >= 9,
                    ;
                    if all_digits(digits) {
                        lemma_digits_prefix(digits, i - start + 1);
                    }
                }
            } else {
                assert(10 * (v as int) + (d as int) <= limit as int) by (nonlinear_arith)
                    requires
                        v <= (limit - d) / 10,
                        d <= 9,
                        limit >= 9,
                ;
                v = 10 * v + d;
            }
        }
        i += 1;
    }
    assert(digits.take(n - start) =~= digits);
    if over {
        return None;
    }
    if neg {
        if v == 9223372036854775808u64 {
            Some(i64::MIN)
        } else {
            Some(-(v as i64))
        }
    } else {
        Some(v as i64)
    }
}

/// Whether the characters `v` spell `s`.
pub fn eq_lit(v: &[char], s: &str) -> (r: bool)
    ensures
        r == (v@ == s@),
{
    let w = chars_of(s);
    if v.len() != w.len() {
        return false;
    }
    let mut i: usize = 0;
    while i < v.len()
        invariant
            i <= v@.len(),
            v@.len() == w@.len(),
            w@ == s@,
            forall|j: int| 0 <= j < i ==> v@[j] == w@[j],
        decreases v@.len() - i,
    {
        if v[i] != w[i] {
            assert(v@[i as int] != w@[i as int]);
            return false;
        }
        i += 1;
    }
    assert(v@ =~= w@);
    true
}

/// `s` holds no `c`.
pub open spec fn free_of(s: Seq<char>, c: char) -> bool {
    forall|i: int| 0 <= i < s.len() ==> s[i] != c
}

pub proof fn lemma_split_plain(a: Seq<char>, b: Seq<char>, sep: char)
    requires
        free_of(b, sep),
    ensures
        split_on(a + b, sep) == split_on(a, sep).update(
            split_on(a, sep).len() - 1,
            split_on(a, sep).last() + b,
        ),
    decreases b.len(),
{
    lemma_split_nonempty(a, sep);
    if b.len() == 0 {
        assert(a + b =~= a);
        assert(split_on(a, sep).last() + b =~= split_on(a, sep).last());
        assert(split_on(a, sep).update(split_on(a, sep).len() - 1, split_on(a, sep).last())
            =~= split_on(a, sep));
    } else {
        let b1 = b.drop_last();
        lemma_split_plain(a, b1, sep);
        assert((a + b).drop_last() =~= a + b1);
        assert((a + b).last() == b.last());
        lemma_split_nonempty(a + b1, sep);
        assert(split_on(a, sep).last() + b =~= (split_on(a, sep).last() + b1).push(b.last()));
        assert(split_on(a + b, sep) =~= split_on(a, sep).update(
            split_on(a, sep).len() - 1,
            split_on(a, sep).last() + b,
        ));
    }
}

pub proof fn lemma_first_non_ws(s: Seq<char>, i: int, a: int)
    requires
        0 <= i <= a < s.len(),
        forall|k: int| i <= k < a ==> is_ws(#[trigger] s[k]),
        !is_ws(s[a]),
    ensures
        first_non_ws(s, i) == a,
    decreases a - i,
{
    if i < a {
        lemma_first_non_ws(s, i + 1, a);
    }
}

pub proof fn lemma_end_non_ws(s: Seq<char>, j: int, b: int)
    requires
        0 < b <= j <= s.len(),
        forall|k: int| b <= k < j ==> is_ws(#[trigger] s[k]),
        !is_ws(s[b - 1]),
    ensures
        end_non_ws(s, j) == b,
    decreases j - b,
{
    if b < j {
        lemma_end_non_ws(s, j - 1, b);
    }
}

/// Trimming keeps what lies between white space on both sides.
pub proof fn lemma_trim_between(s: Seq<char>, a: int, b: int)
    requires
        0 <= a < b <= s.len(),
        forall|k: int| 0 <= k < a ==> is_ws(#[trigger] s[k]),
        forall|k: int| b <= k < s.len() ==> is_ws(#[trigger] s[k]),
        !is_ws(s[a]),
        !is_ws(s[b - 1]),
    ensures
        spec_trim(s) == s.subrange(a, b),
{
    lemma_first_non_ws(s, 0, a);
    lemma_end_non_ws(s, s.len() as int, b);
}

pub proof fn lemma_trim_same(s: Seq<char>)
    requires
        s.len() > 0,
        !is_ws(s[0]),
        !is_ws(s.last()),
    ensures
        spec_trim(s) == s,
{
    lemma_trim_between(s, 0, s.len() as int);
    assert(s.subrange(0, s.len() as int) =~= s);
}

} // verus!
