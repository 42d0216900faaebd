//! Display transforms: sacred-name styling, adverbial tanween, hamza style, numerals,
//! punctuation. All functions take and return full strings; they never add tatweel or bidi
//! controls.
use vstd::prelude::*;
use crate::arabic::{spec_is_mark, spec_strip_marks, strip_marks, FATHA, FATHATAN, SHADDA, SUPERSCRIPT_ALEF};
use crate::text::{chars_of, is_whitespace, is_ws, push_char, str_eq, string_of};

verus! {

#[derive(Clone, Copy, Debug, PartialEq, Eq, Structural)]
pub enum AllahForm {
    Plain,
    Shadda,
    ShaddaFatha,
    ShaddaDagger,
}

impl Default for AllahForm {
    fn default() -> (r: Self)
        ensures
            r == AllahForm::Shadda,
    {
        AllahForm::Shadda
    }
}

/// The marks that `form` puts on the lām of a sacred name.
pub open spec fn form_marks(form: AllahForm) -> Seq<char> {
    match form {
        AllahForm::Plain => seq![],
        AllahForm::Shadda => seq![SHADDA],
        AllahForm::ShaddaFatha => seq![SHADDA, FATHA],
        AllahForm::ShaddaDagger => seq![SHADDA, SUPERSCRIPT_ALEF],
    }
}

impl AllahForm {
    pub open spec fn spec_parse(s: Seq<char>) -> Option<AllahForm> {
        if s == "plain"@ {
            Some(AllahForm::Plain)
        } else if s == "shadda"@ {
            Some(AllahForm::Shadda)
        } else if s == "shadda_fatha"@ {
            Some(AllahForm::ShaddaFatha)
        } else if s == "shadda_dagger"@ {
            Some(AllahForm::ShaddaDagger)
        } else {
            None
        }
    }

    pub fn parse(s: &str) -> (r: Option<Self>)
        ensures
            r == Self::spec_parse(s@),
    {
        if str_eq(s, "plain") {
            Some(AllahForm::Plain)
        } else if str_eq(s, "shadda") {
            Some(AllahForm::Shadda)
        } else if str_eq(s, "shadda_fatha") {
            Some(AllahForm::ShaddaFatha)
        } else if str_eq(s, "shadda_dagger") {
            Some(AllahForm::ShaddaDagger)
        } else {
            None
        }
    }
}

#[derive(Clone, Copy, Debug, PartialEq, Eq, Structural)]
pub enum TanweenStyle {
    OnAlif,
    BeforeAlif,
    Off,
}

impl Default for TanweenStyle {
    fn default() -> (r: Self)
        ensures
            r == TanweenStyle::OnAlif,
    {
        TanweenStyle::OnAlif
    }
}

impl TanweenStyle {
    pub open spec fn spec_parse(s: Seq<char>) -> Option<TanweenStyle> {
        if s == "on_alif"@ {
            Some(TanweenStyle::OnAlif)
        } else if s == "before_alif"@ {
            Some(TanweenStyle::BeforeAlif)
        } else if s == "off"@ {
            Some(TanweenStyle::Off)
        } else {
            None
        }
    }

    pub fn parse(s: &str) -> (r: Option<Self>)
        ensures
            r == Self::spec_parse(s@),
    {
        if str_eq(s, "on_alif") {
            Some(TanweenStyle::OnAlif)
        } else if str_eq(s, "before_alif") {
            Some(TanweenStyle::BeforeAlif)
        } else if str_eq(s, "off") {
            Some(TanweenStyle::Off)
        } else {
            None
        }
    }
}

// ---------------------------------------------------------------------------------------------
// Sacred names.

/// Words that receive sacred-name styling (exact base-form match).
pub open spec fn spec_is_sacred(w: Seq<char>) -> bool {
    w == "الله"@ || w == "والله"@ || w == "بالله"@ || w == "تالله"@ || w == "فالله"@ || w
        == "لله"@ || w == "ولله"@ || w == "فلله"@ || w == "اللهم"@
}

fn is_sacred(w: &str) -> (r: bool)
    ensures
        r == spec_is_sacred(w@),
{
    str_eq(w, "الله") || str_eq(w, "والله") || str_eq(w, "بالله") || str_eq(w, "تالله")
        || str_eq(w, "فالله") || str_eq(w, "لله") || str_eq(w, "ولله") || str_eq(w, "فلله")
        || str_eq(w, "اللهم")
}

/// A lām followed by a hā' at `i`.
pub open spec fn lam_ha_at(b: Seq<char>, i: int) -> bool {
    0 <= i && i + 1 < b.len() && b[i] == '\u{0644}' && b[i + 1] == '\u{0647}'
}

/// The last `i < n` with a lām followed by a hā' at `i`.
pub open spec fn last_lam_ha(b: Seq<char>, n: int) -> Option<int>
    decreases n,
{
    if n <= 0 {
        None
    } else if lam_ha_at(b, n - 1) {
        Some(n - 1)
    } else {
        last_lam_ha(b, n - 1)
    }
}

/// Word `w` styled: a sacred word loses its marks and gets the form's marks after the last lām
/// that is followed by hā'; any other word is kept.
pub open spec fn style_word(w: Seq<char>, form: AllahForm) -> Seq<char> {
    let base = spec_strip_marks(w);
    if !spec_is_sacred(base) {
        w
    } else {
        match last_lam_ha(base, base.len() as int) {
            None => w,
            Some(i) => base.take(i + 1) + form_marks(form) + base.skip(i + 1),
        }
    }
}

/// The rest of `s` from `i` styled, `word` being the part of a word read just before `i`:
/// words are the runs between white-space characters, which are kept as they are.
pub open spec fn style_from(s: Seq<char>, i: int, word: Seq<char>, form: AllahForm) -> Seq<char>
    decreases s.len() - i,
{
    if i >= s.len() {
        style_word(word, form)
    } else if is_ws(s[i]) {
        style_word(word, form) + seq![s[i]] + style_from(s, i + 1, Seq::empty(), form)
    } else {
        style_from(s, i + 1, word.push(s[i]), form)
    }
}

pub open spec fn spec_style_sacred(text: Seq<char>, form: AllahForm) -> Seq<char> {
    if form == AllahForm::Plain {
        text
    } else {
        style_from(text, 0, Seq::empty(), form)
    }
}

/// A word of `s` from `i` on (with `word` read just before `i`) is sacred.
pub open spec fn sacred_from(s: Seq<char>, i: int, word: Seq<char>) -> bool
    decreases s.len() - i,
{
    if i >= s.len() {
        spec_is_sacred(spec_strip_marks(word))
    } else if is_ws(s[i]) {
        spec_is_sacred(spec_strip_marks(word)) || sacred_from(s, i + 1, Seq::empty())
    } else {
        sacred_from(s, i + 1, word.push(s[i]))
    }
}

pub open spec fn spec_contains_sacred(text: Seq<char>) -> bool {
    sacred_from(text, 0, Seq::empty())
}

fn style_one(w: &Vec<char>, form: AllahForm) -> (r: Vec<char>)
    ensures
        r@ == style_word(w@, form),
{
    let ws = string_of(w.as_slice());
    let base_s = strip_marks(ws.as_str());
    if !is_sacred(base_s.as_str()) {
        return copy_chars(w);
    }
    let base = chars_of(base_s.as_str());
    assert(base@ == spec_strip_marks(w@));
    let n = base.len();
    let mut idx: Option<usize> = None;
    let mut i: usize = 0;
    while i < n
        invariant
            i <= n,
            n == base.len(),
            idx is None <==> last_lam_ha(base@, i as int) is None,
            idx matches Some(k) ==> last_lam_ha(base@, i as int) == Some(k as int),
            idx matches Some(k) ==> k < i,
        decreases n - i,
    {
        if i + 1 < n && base[i] == '\u{0644}' && base[i + 1] == '\u{0647}' {
            idx = Some(i);
        }
        i += 1;
    }
    match idx {
        None => copy_chars(w),
        Some(k) => {
            let mut out: Vec<char> = Vec::new();
            let mut j: usize = 0;
            while j < n
                invariant
                    j <= n,
                    n == base.len(),
                    k < n,
                    out@ == if j <= k {
                        base@.take(j as int)
                    } else {
                        base@.take(k + 1) + form_marks(form) + base@.subrange(k + 1, j as int)
                    },
                decreases n - j,
            {
                out.push(base[j]);
                if j == k {
                    match form {
                        AllahForm::Plain => {},
                        AllahForm::Shadda => {
                            out.push(SHADDA);
                        },
                        AllahForm::ShaddaFatha => {
                            out.push(SHADDA);
                            out.push(FATHA);
                        },
                        AllahForm::ShaddaDagger => {
                            out.push(SHADDA);
                            out.push(SUPERSCRIPT_ALEF);
                        },
                    }
                }
                proof {
                    if j == k {
                        assert(base@.take(j as int).push(base@[j as int]) =~= base@.take(k + 1));
                        assert(base@.subrange(k + 1, j + 1) =~= Seq::<char>::empty());
                    } else if j > k {
                        assert(base@.subrange(k + 1, j as int).push(base@[j as int])
                            =~= base@.subrange(k + 1, j + 1));
                    } else {
                        assert(base@.take(j as int).push(base@[j as int]) =~= base@.take(j + 1));
                    }
                }
                assert(out@ =~= if j + 1 <= k {
                    base@.take(j + 1)
                } else {
                    base@.take(k + 1) + form_marks(form) + base@.subrange(k + 1, j + 1)
                });
                j += 1;
            }
            assert(base@.subrange(k + 1, n as int) =~= base@.skip(k + 1));
            out
        },
    }
}

fn copy_chars(v: &Vec<char>) -> (r: Vec<char>)
    ensures
        r@ == v@,
{
    let mut r: Vec<char> = Vec::new();
    let mut i: usize = 0;
    while i < v.len()
        invariant
            i <= v.len(),
            r@ =~= v@.take(i as int),
        decreases v.len() - i,
    {
        r.push(v[i]);
        i += 1;
    }
    assert(v@.take(v.len() as int) =~= v@);
    r
}

fn push_all(out: &mut String, v: &Vec<char>)
    ensures
        final(out)@ == old(out)@ + v@,
{
    let ghost before = out@;
    let mut j: usize = 0;
    while j < v.len()
        invariant
            j <= v.len(),
            out@ == before + v@.take(j as int),
        decreases v.len() - j,
    {
        push_char(out, v[j]);
        assert(v@.take(j + 1) =~= v@.take(j as int).push(v@[j as int]));
        j += 1;
    }
    assert(v@.take(v.len() as int) =~= v@);
}

/// Style every sacred word inside `text` (words separated by white space, which is kept).
pub fn style_sacred(text: &str, form: AllahForm) -> (r: String)
    ensures
        r@ == spec_style_sacred(text@, form),
{
    if form == AllahForm::Plain {
        return text.to_owned();
    }
    let cs = chars_of(text);
    let mut out = String::new();
    let mut word: Vec<char> = Vec::new();
    let mut i: usize = 0;
    while i < cs.len()
        invariant
            i <= cs@.len(),
            cs@ == text@,
            form != AllahForm::Plain,
            out@ + style_from(text@, i as int, word@, form) == style_from(text@, 0, Seq::empty(), form),
        decreases cs@.len() - i,
    {
        let c = cs[i];
        if is_whitespace(c) {
            let sw = style_one(&word, form);
            let ghost o = out@;
            push_all(&mut out, &sw);
            push_char(&mut out, c);
            assert(out@ + style_from(text@, i + 1, Seq::empty(), form) =~= o + style_from(text@, i as int, word@, form));
            word = Vec::new();
        } else {
            word.push(c);
        }
        i += 1;
    }
    let sw = style_one(&word, form);
    push_all(&mut out, &sw);
    out
}

/// True if any word of `text` is sacred (so the plain form should also be offered).
pub fn contains_sacred(text: &str) -> (r: bool)
    ensures
        r == spec_contains_sacred(text@),
{
    let cs = chars_of(text);
    let mut word: Vec<char> = Vec::new();
    let mut i: usize = 0;
    while i < cs.len()
        invariant
            i <= cs@.len(),
            cs@ == text@,
            sacred_from(text@, i as int, word@) == spec_contains_sacred(text@),
        decreases cs@.len() - i,
    {
        let c = cs[i];
        if is_whitespace(c) {
            let w = string_of(word.as_slice());
            let base = strip_marks(w.as_str());
            if is_sacred(base.as_str()) {
                return true;
            }
            word = Vec::new();
        } else {
            word.push(c);
        }
        i += 1;
    }
    let w = string_of(word.as_slice());
    let base = strip_marks(w.as_str());
    is_sacred(base.as_str())
}

/// No harakat in `s`.
pub open spec fn mark_free(s: Seq<char>) -> bool {
    forall|k: int| 0 <= k < s.len() ==> !spec_is_mark(#[trigger] s[k])
}

proof fn lemma_strip_mark_free(w: Seq<char>)
    requires
        mark_free(w),
    ensures
        spec_strip_marks(w) == w,
    decreases w.len(),
{
    reveal(Seq::filter);
    if w.len() > 0 {
        lemma_strip_mark_free(w.drop_last());
        assert(w.drop_last().push(w.last()) =~= w);
    }
}

proof fn lemma_lam_ha_index(b: Seq<char>, n: int)
    ensures
        last_lam_ha(b, n) matches Some(i) ==> lam_ha_at(b, i),
    decreases n,
{
    if n > 0 && !lam_ha_at(b, n - 1) {
        lemma_lam_ha_index(b, n - 1);
    }
}

proof fn lemma_lam_ha_found(b: Seq<char>, k: int, n: int)
    requires
        0 <= k < n,
        lam_ha_at(b, k),
    ensures
        last_lam_ha(b, n) is Some,
    decreases n,
{
    if !lam_ha_at(b, n - 1) {
        lemma_lam_ha_found(b, k, n - 1);
    }
}

/// Every sacred word holds a lām followed by a hā'.
proof fn lemma_sacred_lam_ha(w: Seq<char>)
    requires
        spec_is_sacred(w),
    ensures
        last_lam_ha(w, w.len() as int) is Some,
{
    if w == "اللهم"@ {
        reveal_strlit("اللهم");
        lemma_lam_ha_found(w, 2, 5);
    } else {
        reveal_strlit("الله");
        reveal_strlit("والله");
        reveal_strlit("بالله");
        reveal_strlit("تالله");
        reveal_strlit("فالله");
        reveal_strlit("لله");
        reveal_strlit("ولله");
        reveal_strlit("فلله");
        assert(w.len() >= 3 && lam_ha_at(w, w.len() - 2));
        lemma_lam_ha_found(w, w.len() - 2, w.len() as int);
    }
}

proof fn lemma_style_word_mark_free(w: Seq<char>, form: AllahForm)
    requires
        mark_free(w),
        form != AllahForm::Plain,
    ensures
        spec_is_sacred(spec_strip_marks(w)) ==> style_word(w, form).len() > w.len(),
        !spec_is_sacred(spec_strip_marks(w)) ==> style_word(w, form) == w,
{
    lemma_strip_mark_free(w);
    if spec_is_sacred(w) {
        lemma_sacred_lam_ha(w);
        lemma_lam_ha_index(w, w.len() as int);
        assert(form_marks(form).len() >= 1);
    }
}

proof fn lemma_style_from_mark_free(s: Seq<char>, i: int, word: Seq<char>, form: AllahForm)
    requires
        0 <= i <= s.len(),
        mark_free(s),
        mark_free(word),
        form != AllahForm::Plain,
    ensures
        style_from(s, i, word, form).len() >= word.len() + s.len() - i,
        !sacred_from(s, i, word) ==> style_from(s, i, word, form) == word + s.skip(i),
        sacred_from(s, i, word) ==> style_from(s, i, word, form).len() > word.len() + s.len() - i,
    decreases s.len() - i,
{
    lemma_style_word_mark_free(word, form);
    if i >= s.len() {
        assert(word + s.skip(i) =~= word);
    } else if is_ws(s[i]) {
        lemma_style_from_mark_free(s, i + 1, Seq::empty(), form);
        assert(Seq::<char>::empty() + s.skip(i + 1) =~= s.skip(i + 1));
        assert(word + seq![s[i]] + s.skip(i + 1) =~= word + s.skip(i));
    } else {
        assert(mark_free(word.push(s[i])));
        lemma_style_from_mark_free(s, i + 1, word.push(s[i]), form);
        assert(word.push(s[i]) + s.skip(i + 1) =~= word + s.skip(i));
    }
}

/// Styling changes a text exactly when it holds a sacred word: `contains_sacred(t)` holds just
/// when `style_sacred(t, form) != t`, for any styled form, for texts written without harakat (a
/// sacred word already written with its marks stays as it is).
pub proof fn law_contains_sacred_iff_styled(t: Seq<char>, form: AllahForm)
    requires
        mark_free(t),
        form != AllahForm::Plain,
    ensures
        spec_contains_sacred(t) <==> spec_style_sacred(t, form) != t,
{
    lemma_style_from_mark_free(t, 0, Seq::empty(), form);
    assert(Seq::<char>::empty() + t.skip(0) =~= t);
}

// ---------------------------------------------------------------------------------------------
// Tanween, hamza, digits, punctuation.

pub open spec fn spec_add_tanween_fath(w: Seq<char>, style: TanweenStyle) -> Seq<char> {
    if style == TanweenStyle::Off || w.len() == 0 || w.last() != '\u{0627}' {
        w
    } else if style == TanweenStyle::OnAlif {
        w.push(FATHATAN)
    } else {
        w.drop_last().push(FATHATAN).push('\u{0627}')
    }
}

/// Add fathatan to a word ending in ا. Words not ending in ا are returned unchanged.
pub fn add_tanween_fath(word: &str, style: TanweenStyle) -> (r: String)
    ensures
        r@ == spec_add_tanween_fath(word@, style),
{
    let cs = chars_of(word);
    let n = cs.len();
    if style == TanweenStyle::Off || n == 0 || cs[n - 1] != '\u{0627}' {
        return word.to_owned();
    }
    let mut out = String::new();
    let mut i: usize = 0;
    while i < n - 1
        invariant
            i <= n - 1,
            n == cs.len(),
            out@ =~= cs@.take(i as int),
        decreases n - 1 - i,
    {
        push_char(&mut out, cs[i]);
        i += 1;
    }
    assert(cs@.take(n - 1) =~= cs@.drop_last());
    match style {
        TanweenStyle::OnAlif => {
            push_char(&mut out, '\u{0627}');
            push_char(&mut out, FATHATAN);
            assert(cs@.drop_last().push('\u{0627}') =~= cs@);
        },
        _ => {
            push_char(&mut out, FATHATAN);
            push_char(&mut out, '\u{0627}');
        },
    }
    out
}

/// Relaxed hamza: أ إ آ → ا.
pub open spec fn relaxed(c: char) -> char {
    if c == '\u{0623}' || c == '\u{0625}' || c == '\u{0622}' {
        '\u{0627}'
    } else {
        c
    }
}

/// Relaxed hamza style: أ إ آ → ا.
pub fn relax_hamza(text: &str) -> (r: String)
    ensures
        r@ == text@.map_values(|c: char| relaxed(c)),
{
    let cs = chars_of(text);
    let mut out = String::new();
    let mut i: usize = 0;
    while i < cs.len()
        invariant
            i <= cs.len(),
            out@ =~= cs@.take(i as int).map_values(|c: char| relaxed(c)),
        decreases cs.len() - i,
    {
        let c = cs[i];
        push_char(&mut out, if c == '\u{0623}' || c == '\u{0625}' || c == '\u{0622}' {
            '\u{0627}'
        } else {
            c
        });
        i += 1;
    }
    assert(cs@.take(cs.len() as int) =~= cs@);
    out
}

/// ASCII digit `d` as the Eastern Arabic digit U+0660 + d; other characters unchanged.
pub open spec fn eastern(c: char) -> char {
    if c == '0' {
        '\u{0660}'
    } else if c == '1' {
        '\u{0661}'
    } else if c == '2' {
        '\u{0662}'
    } else if c == '3' {
        '\u{0663}'
    } else if c == '4' {
        '\u{0664}'
    } else if c == '5' {
        '\u{0665}'
    } else if c == '6' {
        '\u{0666}'
    } else if c == '7' {
        '\u{0667}'
    } else if c == '8' {
        '\u{0668}'
    } else if c == '9' {
        '\u{0669}'
    } else {
        c
    }
}

fn eastern_digit(c: char) -> (r: char)
    ensures
        r == eastern(c),
{
    match c {
        '0' => '\u{0660}',
        '1' => '\u{0661}',
        '2' => '\u{0662}',
        '3' => '\u{0663}',
        '4' => '\u{0664}',
        '5' => '\u{0665}',
        '6' => '\u{0666}',
        '7' => '\u{0667}',
        '8' => '\u{0668}',
        '9' => '\u{0669}',
        c => c,
    }
}

/// Convert ASCII digits to Eastern Arabic digits when `eastern` is set.
pub fn numerals(text: &str, eastern_digits: bool) -> (r: String)
    ensures
        r@ == if eastern_digits {
            text@.map_values(|c: char| eastern(c))
        } else {
            text@
        },
{
    if !eastern_digits {
        return text.to_owned();
    }
    let cs = chars_of(text);
    let mut out = String::new();
    let mut i: usize = 0;
    while i < cs.len()
        invariant
            i <= cs.len(),
            out@ =~= cs@.take(i as int).map_values(|c: char| eastern(c)),
        decreases cs.len() - i,
    {
        push_char(&mut out, eastern_digit(cs[i]));
        i += 1;
    }
    assert(cs@.take(cs.len() as int) =~= cs@);
    out
}

pub open spec fn spec_punctuation(c: char, arabic_punct: bool) -> char {
    if !arabic_punct {
        c
    } else if c == ',' {
        '\u{060C}'
    } else if c == ';' {
        '\u{061B}'
    } else if c == '?' {
        '\u{061F}'
    } else {
        c
    }
}

/// Arabic punctuation mapping applied while typing.
pub fn punctuation(c: char, arabic_punct: bool) -> (r: char)
    ensures
        r == spec_punctuation(c, arabic_punct),
{
    if !arabic_punct {
        return c;
    }
    match c {
        ',' => '\u{060C}',
        ';' => '\u{061B}',
        '?' => '\u{061F}',
        c => c,
    }
}

/// Eastern numerals: with eastern digits on, every ASCII digit `d` becomes the character
/// U+0660 + (`d` - '0') and every other character stays as it is; with them off the text is
/// unchanged.
pub proof fn law_numerals_digits(text: Seq<char>)
    ensures
        forall|i: int|
            0 <= i < text.len() && '0' <= #[trigger] text[i] <= '9' ==> text.map_values(|c: char| eastern(c))[i] as u32
                == 0x0660 + (text[i] as u32 - '0' as u32),
        forall|i: int|
            0 <= i < text.len() && !('0' <= #[trigger] text[i] <= '9') ==> text.map_values(|c: char| eastern(c))[i]
                == text[i],
{
}

} // verus!
