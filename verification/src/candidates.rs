//! The candidate list of a Latin word: the number, laughter, joiner, phrase and reading
//! candidates in their places, sacred styling with a plain alternative, relaxed hamza, no
//! displayed text twice, the sticky choice pinned, and the raw Latin last (or first). The
//! readings come in already ranked: their scores are floats and are the caller's.
use vstd::prelude::*;
use crate::arabic::{spec_strip_marks, strip_marks};
use crate::display::{
    add_tanween_fath, contains_sacred, eastern, numerals, relax_hamza, relaxed,
    spec_add_tanween_fath, spec_contains_sacred, sacred_from, spec_is_sacred, spec_style_sacred, style_sacred, AllahForm,
    TanweenStyle,
};
use crate::normalize::{ascii_digit, lower_of, to_lower};
use crate::session::{CandidateKind, EngineSettings};
use crate::text::{chars_of, push_char, push_str, str_eq};
use crate::user::RAW_LATIN;

verus! {

/// A candidate as (displayed text, base form, kind).
pub open spec fn cand_view(c: (String, String, CandidateKind)) -> (Seq<char>, Seq<char>, CandidateKind) {
    (c.0@, c.1@, c.2)
}

pub open spec fn cands_view(v: Seq<(String, String, CandidateKind)>) -> Seq<(Seq<char>, Seq<char>, CandidateKind)> {
    v.map_values(|c: (String, String, CandidateKind)| cand_view(c))
}

pub open spec fn pairs_view(v: Seq<(String, bool)>) -> Seq<(Seq<char>, bool)> {
    v.map_values(|p: (String, bool)| (p.0@, p.1))
}

// ---------------------------------------------------------------------------------------------
// The candidates before display.

pub open spec fn spec_numerals(t: Seq<char>, eastern_digits: bool) -> Seq<char> {
    if eastern_digits {
        t.map_values(|c: char| eastern(c))
    } else {
        t
    }
}

/// A candidate whose base form is its text without harakat.
pub open spec fn plain_cand(t: Seq<char>, kind: CandidateKind) -> (Seq<char>, Seq<char>, CandidateKind) {
    (t, spec_strip_marks(t), kind)
}

pub open spec fn all_ascii_digits(s: Seq<char>) -> bool {
    forall|i: int| 0 <= i < s.len() ==> ascii_digit(#[trigger] s[i])
}

/// Arabizi readings are offered unless the word is a number of two or more symbols, or a number
/// with something other than ASCII digits.
pub open spec fn arabizi_allowed(raw: Seq<char>, is_number: bool) -> bool {
    !(is_number && (raw.len() >= 2 || !all_ascii_digits(raw)))
}

pub open spec fn count_h(s: Seq<char>) -> nat
    decreases s.len(),
{
    if s.len() == 0 {
        0
    } else {
        count_h(s.drop_last()) + if s.last() == 'h' {
            1nat
        } else {
            0nat
        }
    }
}

/// Laughter: three or more `h`, starting with `h`, nothing but `h`, `a`, `e` (any case).
pub open spec fn is_laughter(raw: Seq<char>) -> bool {
    let lower = raw.map_values(|c: char| lower_of(c));
    &&& count_h(lower) >= 3
    &&& lower[0] == 'h'
    &&& forall|i: int| 0 <= i < lower.len() ==> (#[trigger] lower[i] == 'h' || lower[i] == 'a' || lower[i] == 'e')
}

/// One hā' per `h`, at most eight.
pub open spec fn laughter_text(raw: Seq<char>) -> Seq<char> {
    let h = count_h(raw.map_values(|c: char| lower_of(c)));
    Seq::new(if h < 8 { h } else { 8 }, |i: int| '\u{0647}')
}

pub open spec fn joiner_text(key: Seq<char>) -> Option<Seq<char>> {
    if key == "el"@ || key == "al"@ || key == "il"@ || key == "l"@ {
        Some("\u{0627}\u{0644}"@)
    } else if key == "w"@ || key == "wa"@ || key == "we"@ {
        Some("\u{0648}"@)
    } else {
        None
    }
}

/// The phrases among the first `n` whose default flag is `default`, as candidates: default
/// phrases with their base form, late ones as they are.
pub open spec fn phrase_cands(phrases: Seq<(Seq<char>, bool)>, default: bool, n: int) -> Seq<(Seq<char>, Seq<char>, CandidateKind)>
    decreases n,
{
    if n <= 0 {
        Seq::empty()
    } else {
        let p = phrase_cands(phrases, default, n - 1);
        if phrases[n - 1].1 == default {
            p.push(
                if default {
                    plain_cand(phrases[n - 1].0, CandidateKind::Phrase)
                } else {
                    (phrases[n - 1].0, phrases[n - 1].0, CandidateKind::Phrase)
                },
            )
        } else {
            p
        }
    }
}

/// The candidates that come before the readings.
pub open spec fn front_cands(raw: Seq<char>, key: Seq<char>, is_number: bool, s: EngineSettings, phrases: Seq<(Seq<char>, bool)>) -> Seq<(Seq<char>, Seq<char>, CandidateKind)> {
    let number = if is_number {
        seq![plain_cand(spec_numerals(raw, s.eastern_numerals), CandidateKind::Number)]
    } else {
        Seq::empty()
    };
    if arabizi_allowed(raw, is_number) {
        let laughter = if raw.len() > 0 && is_laughter(raw) {
            seq![plain_cand(laughter_text(raw), CandidateKind::Laughter)]
        } else {
            Seq::empty()
        };
        let joiner = match joiner_text(key) {
            Some(j) => if s.article_joining {
                seq![plain_cand(j, CandidateKind::Joiner)]
            } else {
                Seq::empty()
            },
            None => Seq::empty(),
        };
        number + laughter + joiner + phrase_cands(phrases, true, phrases.len() as int)
    } else {
        number
    }
}

/// The readings as candidates, in their order; a reading that ends in tanween gets it written.
pub open spec fn reading_cands(readings: Seq<(Seq<char>, bool)>, style: TanweenStyle) -> Seq<(Seq<char>, Seq<char>, CandidateKind)> {
    readings.map_values(
        |r: (Seq<char>, bool)|
            (
                if r.1 {
                    spec_add_tanween_fath(r.0, style)
                } else {
                    r.0
                },
                r.0,
                CandidateKind::Oov,
            ),
    )
}

/// All candidates before display: the late phrases go second among the readings when nothing
/// comes before the readings, else first.
pub open spec fn spec_items(raw: Seq<char>, key: Seq<char>, is_number: bool, s: EngineSettings, phrases: Seq<(Seq<char>, bool)>, readings: Seq<(Seq<char>, bool)>) -> Seq<(Seq<char>, Seq<char>, CandidateKind)> {
    let front = front_cands(raw, key, is_number, s, phrases);
    if arabizi_allowed(raw, is_number) {
        let rest = reading_cands(readings, s.tanween);
        let late = phrase_cands(phrases, false, phrases.len() as int);
        let at: int = if front.len() == 0 && rest.len() >= 1 { 1 } else { 0 };
        front + rest.take(at) + late + rest.skip(at)
    } else {
        front
    }
}

// ---------------------------------------------------------------------------------------------
// Display, duplicates, the sticky choice.

/// Candidate `c` as displayed: a sacred word styled, followed by its plain form; hamza relaxed
/// when asked.
pub open spec fn displayed(c: (Seq<char>, Seq<char>, CandidateKind), form: AllahForm, relax: bool) -> Seq<(Seq<char>, Seq<char>, CandidateKind)> {
    let r = |t: Seq<char>| if relax { t.map_values(|x: char| relaxed(x)) } else { t };
    if spec_contains_sacred(c.1) && form != AllahForm::Plain {
        seq![(r(spec_style_sacred(c.0, form)), r(c.1), c.2), (r(c.1), r(c.1), c.2)]
    } else {
        seq![(r(c.0), r(c.1), c.2)]
    }
}

pub open spec fn display_upto(items: Seq<(Seq<char>, Seq<char>, CandidateKind)>, form: AllahForm, relax: bool, n: int) -> Seq<(Seq<char>, Seq<char>, CandidateKind)>
    decreases n,
{
    if n <= 0 {
        Seq::empty()
    } else {
        display_upto(items, form, relax, n - 1) + displayed(items[n - 1], form, relax)
    }
}

/// Some candidate of `l` shows `t`.
pub open spec fn shows(l: Seq<(Seq<char>, Seq<char>, CandidateKind)>, t: Seq<char>) -> bool {
    exists|i: int| 0 <= i < l.len() && (#[trigger] l[i]).0 == t
}

/// The first `n` candidates with each displayed text kept once, at its first place.
pub open spec fn dedup_upto(items: Seq<(Seq<char>, Seq<char>, CandidateKind)>, n: int) -> Seq<(Seq<char>, Seq<char>, CandidateKind)>
    decreases n,
{
    if n <= 0 {
        Seq::empty()
    } else {
        let p = dedup_upto(items, n - 1);
        if shows(p, items[n - 1].0) {
            p
        } else {
            p.push(items[n - 1])
        }
    }
}

/// The first index at or after `i` whose base form is `w`.
pub open spec fn find_base(l: Seq<(Seq<char>, Seq<char>, CandidateKind)>, w: Seq<char>, i: int) -> Option<int>
    decreases l.len() - i,
{
    if i >= l.len() {
        None
    } else if l[i].1 == w {
        Some(i)
    } else {
        find_base(l, w, i + 1)
    }
}

/// The list with the sticky choice first (numbers stay first), and whether the raw Latin goes
/// first.
pub open spec fn spec_pin(l: Seq<(Seq<char>, Seq<char>, CandidateKind)>, sticky: Option<Seq<char>>, on: bool) -> (Seq<(Seq<char>, Seq<char>, CandidateKind)>, bool) {
    let pinned_number = l.len() > 0 && l[0].2 == CandidateKind::Number;
    if on && !pinned_number && sticky is Some {
        let w = sticky->0;
        if w == RAW_LATIN@ {
            (l, true)
        } else {
            match find_base(l, w, 0) {
                Some(p) => (seq![l[p]] + l.remove(p), false),
                None => (seq![(w, w, CandidateKind::Custom)] + l, false),
            }
        }
    } else {
        (l, false)
    }
}

/// The candidate list for the Latin `raw` (key `key`): at most `max_candidates - 1` candidates,
/// then the raw Latin (first instead when it is the sticky choice).
pub open spec fn spec_candidate_list(
    raw: Seq<char>,
    key: Seq<char>,
    is_number: bool,
    s: EngineSettings,
    phrases: Seq<(Seq<char>, bool)>,
    readings: Seq<(Seq<char>, bool)>,
    sticky: Option<Seq<char>>,
    max_candidates: int,
) -> Seq<(Seq<char>, Seq<char>, CandidateKind)> {
    let items = spec_items(raw, key, is_number, s, phrases, readings);
    let shown = display_upto(items, s.allah_form, s.hamza_relaxed, items.len() as int);
    let unique = dedup_upto(shown, shown.len() as int);
    let (pinned, raw_first) = spec_pin(unique, sticky, s.sticky_last_choice);
    let keep: int = if max_candidates <= 1 {
        0
    } else if pinned.len() < max_candidates - 1 {
        pinned.len() as int
    } else {
        max_candidates - 1
    };
    let raw_c = (raw, raw, CandidateKind::RawLatin);
    if raw_first {
        seq![raw_c] + pinned.take(keep)
    } else {
        pinned.take(keep).push(raw_c)
    }
}

// ---------------------------------------------------------------------------------------------
// Building the list.

fn owned(t: &str) -> (r: String)
    ensures
        r@ == t@,
{
    let mut r = String::new();
    push_str(&mut r, t);
    assert(r@ =~= t@);
    r
}

fn plain(t: String, kind: CandidateKind) -> (r: (String, String, CandidateKind))
    ensures
        cand_view(r) == plain_cand(t@, kind),
{
    let base = strip_marks(t.as_str());
    (t, base, kind)
}

fn laughter(raw: &[char]) -> (r: Option<String>)
    ensures
        match r {
            Some(t) => raw@.len() > 0 && is_laughter(raw@) && t@ == laughter_text(raw@),
            None => !(raw@.len() > 0 && is_laughter(raw@)),
        },
{
    let ghost lower = raw@.map_values(|c: char| lower_of(c));
    if raw.len() == 0 {
        return None;
    }
    let mut h: usize = 0;
    let mut ok = true;
    let mut i: usize = 0;
    while i < raw.len()
        invariant
            i <= raw@.len(),
            lower == raw@.map_values(|c: char| lower_of(c)),
            h == count_h(lower.take(i as int)),
            h <= i,
            ok == forall|j: int| 0 <= j < i ==> (#[trigger] lower[j] == 'h' || lower[j] == 'a' || lower[j] == 'e'),
        decreases raw@.len() - i,
    {
        assert(lower.take(i + 1).drop_last() =~= lower.take(i as int));
        let c = to_lower(raw[i]);
        assert(lower[i as int] == c);
        if c == 'h' {
            h += 1;
        }
        if !(c == 'h' || c == 'a' || c == 'e') {
            ok = false;
        }
        i += 1;
    }
    assert(lower.take(raw@.len() as int) =~= lower);
    if h >= 3 && to_lower(raw[0]) == 'h' && ok {
        let n = if h < 8 { h } else { 8 };
        let mut t = String::new();
        let mut k: usize = 0;
        while k < n
            invariant
                k <= n,
                t@ =~= Seq::new(k as nat, |j: int| '\u{0647}'),
            decreases n - k,
        {
            push_char(&mut t, '\u{0647}');
            k += 1;
        }
        Some(t)
    } else {
        None
    }
}

fn joiner(key: &str) -> (r: Option<String>)
    ensures
        match r {
            Some(t) => joiner_text(key@) == Some(t@),
            None => joiner_text(key@) is None,
        },
{
    if str_eq(key, "el") || str_eq(key, "al") || str_eq(key, "il") || str_eq(key, "l") {
        Some(owned("\u{0627}\u{0644}"))
    } else if str_eq(key, "w") || str_eq(key, "wa") || str_eq(key, "we") {
        Some(owned("\u{0648}"))
    } else {
        None
    }
}

fn push_cand(out: &mut Vec<(String, String, CandidateKind)>, c: (String, String, CandidateKind))
    ensures
        cands_view(final(out)@) == cands_view(old(out)@).push(cand_view(c)),
{
    let ghost before = cands_view(out@);
    out.push(c);
    assert(cands_view(out@) =~= before.push(cand_view(c)));
}

fn push_phrases(out: &mut Vec<(String, String, CandidateKind)>, phrases: &Vec<(String, bool)>, default: bool)
    ensures
        cands_view(final(out)@) == cands_view(old(out)@) + phrase_cands(pairs_view(phrases@), default, phrases@.len() as int),
{
    let ghost start = cands_view(out@);
    let ghost pv = pairs_view(phrases@);
    let mut i: usize = 0;
    assert(start + phrase_cands(pv, default, 0) =~= start);
    while i < phrases.len()
        invariant
            i <= phrases@.len(),
            pv == pairs_view(phrases@),
            cands_view(out@) == start + phrase_cands(pv, default, i as int),
        decreases phrases@.len() - i,
    {
        assert(pv[i as int] == (phrases@[i as int].0@, phrases@[i as int].1));
        if phrases[i].1 == default {
            let t = phrases[i].0.clone();
            let c = if default {
                plain(t, CandidateKind::Phrase)
            } else {
                let b = t.clone();
                (t, b, CandidateKind::Phrase)
            };
            push_cand(out, c);
        }
        assert(cands_view(out@) =~= start + phrase_cands(pv, default, i + 1));
        i += 1;
    }
}

fn push_all_cands(out: &mut Vec<(String, String, CandidateKind)>, v: &Vec<(String, String, CandidateKind)>, from: usize, to: usize)
    requires
        from <= to <= v@.len(),
    ensures
        cands_view(final(out)@) == cands_view(old(out)@) + cands_view(v@).subrange(from as int, to as int),
{
    let ghost start = cands_view(out@);
    let mut i = from;
    while i < to
        invariant
            from <= i <= to <= v@.len(),
            cands_view(out@) == start + cands_view(v@).subrange(from as int, i as int),
        decreases to - i,
    {
        let c = (v[i].0.clone(), v[i].1.clone(), v[i].2);
        push_cand(out, c);
        assert(cands_view(out@) =~= start + cands_view(v@).subrange(from as int, i + 1));
        i += 1;
    }
}

/// The candidates before display, in order.
pub fn items(
    raw: &str,
    key: &str,
    is_number: bool,
    s: &EngineSettings,
    phrases: &Vec<(String, bool)>,
    readings: &Vec<(String, bool)>,
) -> (r: Vec<(String, String, CandidateKind)>)
    ensures
        cands_view(r@) == spec_items(raw@, key@, is_number, *s, pairs_view(phrases@), pairs_view(readings@)),
{
    let cs = chars_of(raw);
    let mut out: Vec<(String, String, CandidateKind)> = Vec::new();
    assert(cands_view(out@) =~= Seq::<(Seq<char>, Seq<char>, CandidateKind)>::empty());
    if is_number {
        let t = numerals(raw, s.eastern_numerals);
        push_cand(&mut out, plain(t, CandidateKind::Number));
    }
    let mut digits = true;
    let mut i: usize = 0;
    while i < cs.len()
        invariant
            i <= cs@.len(),
            cs@ == raw@,
            digits == forall|j: int| 0 <= j < i ==> ascii_digit(#[trigger] raw@[j]),
        decreases cs@.len() - i,
    {
        if !('0' <= cs[i] && cs[i] <= '9') {
            digits = false;
        }
        i += 1;
    }
    let allowed = !(is_number && (cs.len() >= 2 || !digits));
    assert(allowed == arabizi_allowed(raw@, is_number));
    if !allowed {
        assert(cands_view(out@) =~= front_cands(raw@, key@, is_number, *s, pairs_view(phrases@)));
        return out;
    }
    if let Some(t) = laughter(cs.as_slice()) {
        push_cand(&mut out, plain(t, CandidateKind::Laughter));
    }
    if s.article_joining {
        if let Some(j) = joiner(key) {
            push_cand(&mut out, plain(j, CandidateKind::Joiner));
        }
    }
    push_phrases(&mut out, phrases, true);
    let ghost front = front_cands(raw@, key@, is_number, *s, pairs_view(phrases@));
    assert(cands_view(out@) =~= front);
    let mut rest: Vec<(String, String, CandidateKind)> = Vec::new();
    let ghost rv = reading_cands(pairs_view(readings@), s.tanween);
    let mut k: usize = 0;
    while k < readings.len()
        invariant
            k <= readings@.len(),
            rv == reading_cands(pairs_view(readings@), s.tanween),
            cands_view(rest@) =~= rv.take(k as int),
        decreases readings@.len() - k,
    {
        let b = readings[k].0.clone();
        let t = if readings[k].1 {
            add_tanween_fath(b.as_str(), s.tanween)
        } else {
            b.clone()
        };
        push_cand(&mut rest, (t, b, CandidateKind::Oov));
        assert(rv.take(k + 1) =~= rv.take(k as int).push(rv[k as int]));
        k += 1;
    }
    assert(rv.take(readings@.len() as int) =~= rv);
    let at: usize = if out.len() == 0 && rest.len() >= 1 { 1 } else { 0 };
    push_all_cands(&mut out, &rest, 0, at);
    push_phrases(&mut out, phrases, false);
    push_all_cands(&mut out, &rest, at, rest.len());
    assert(rv.subrange(0, at as int) =~= rv.take(at as int));
    assert(rv.subrange(at as int, rv.len() as int) =~= rv.skip(at as int));
    out
}

fn displayed_of(c: (String, String, CandidateKind), form: AllahForm, relax: bool, out: &mut Vec<(String, String, CandidateKind)>)
    ensures
        cands_view(final(out)@) == cands_view(old(out)@) + displayed(cand_view(c), form, relax),
{
    let ghost before = cands_view(out@);
    let (text, base, kind) = c;
    if contains_sacred(base.as_str()) && form != AllahForm::Plain {
        let st = style_sacred(text.as_str(), form);
        let (t1, b1, t2, b2) = if relax {
            (relax_hamza(st.as_str()), relax_hamza(base.as_str()), relax_hamza(base.as_str()), relax_hamza(base.as_str()))
        } else {
            (st, base.clone(), base.clone(), base)
        };
        push_cand(out, (t1, b1, kind));
        push_cand(out, (t2, b2, kind));
    } else {
        let (t1, b1) = if relax {
            (relax_hamza(text.as_str()), relax_hamza(base.as_str()))
        } else {
            (text, base)
        };
        push_cand(out, (t1, b1, kind));
    }
    assert(cands_view(out@) =~= before + displayed(cand_view(c), form, relax));
}

/// The candidates as displayed, in order.
pub fn display_all(items: &Vec<(String, String, CandidateKind)>, form: AllahForm, relax: bool) -> (r: Vec<(String, String, CandidateKind)>)
    ensures
        cands_view(r@) == display_upto(cands_view(items@), form, relax, items@.len() as int),
{
    let ghost iv = cands_view(items@);
    let mut out: Vec<(String, String, CandidateKind)> = Vec::new();
    assert(cands_view(out@) =~= Seq::<(Seq<char>, Seq<char>, CandidateKind)>::empty());
    let mut i: usize = 0;
    while i < items.len()
        invariant
            i <= items@.len(),
            iv == cands_view(items@),
            cands_view(out@) == display_upto(iv, form, relax, i as int),
        decreases items@.len() - i,
    {
        let c = (items[i].0.clone(), items[i].1.clone(), items[i].2);
        assert(cand_view(c) == iv[i as int]);
        displayed_of(c, form, relax, &mut out);
        i += 1;
    }
    out
}

fn shows_text(l: &Vec<(String, String, CandidateKind)>, t: &str) -> (r: bool)
    ensures
        r == shows(cands_view(l@), t@),
{
    let mut i: usize = 0;
    while i < l.len()
        invariant
            i <= l@.len(),
            forall|j: int| 0 <= j < i ==> (#[trigger] cands_view(l@)[j]).0 != t@,
        decreases l@.len() - i,
    {
        if str_eq(l[i].0.as_str(), t) {
            assert(cands_view(l@)[i as int].0 == t@);
            return true;
        }
        i += 1;
    }
    false
}

/// Each displayed text once, at its first place.
pub fn dedup(items: &Vec<(String, String, CandidateKind)>) -> (r: Vec<(String, String, CandidateKind)>)
    ensures
        cands_view(r@) == dedup_upto(cands_view(items@), items@.len() as int),
{
    let ghost iv = cands_view(items@);
    let mut out: Vec<(String, String, CandidateKind)> = Vec::new();
    assert(cands_view(out@) =~= Seq::<(Seq<char>, Seq<char>, CandidateKind)>::empty());
    let mut i: usize = 0;
    while i < items.len()
        invariant
            i <= items@.len(),
            iv == cands_view(items@),
            cands_view(out@) == dedup_upto(iv, i as int),
        decreases items@.len() - i,
    {
        assert(iv[i as int] == cand_view(items@[i as int]));
        if !shows_text(&out, items[i].0.as_str()) {
            push_cand(&mut out, (items[i].0.clone(), items[i].1.clone(), items[i].2));
        }
        i += 1;
    }
    out
}

/// The list with the sticky choice first, and whether the raw Latin goes first.
pub fn pin(l: Vec<(String, String, CandidateKind)>, sticky: Option<String>, on: bool) -> (r: (Vec<(String, String, CandidateKind)>, bool))
    ensures
        (cands_view(r.0@), r.1) == spec_pin(
            cands_view(l@),
            match sticky {
                Some(w) => Some(w@),
                None => None,
            },
            on,
        ),
{
    let ghost lv = cands_view(l@);
    let ghost sv = match &sticky {
        Some(w) => Some(w@),
        None => None,
    };
    let pinned_number = l.len() > 0 && l[0].2 == CandidateKind::Number;
    if !on || pinned_number {
        return (l, false);
    }
    let w: &String = match &sticky {
        None => {
            return (l, false);
        },
        Some(w) => w,
    };
    if str_eq(w.as_str(), RAW_LATIN) {
        return (l, true);
    }
    let mut i: usize = 0;
    while i < l.len()
        invariant
            i <= l@.len(),
            lv == cands_view(l@),
            find_base(lv, w@, 0) == find_base(lv, w@, i as int),
            sv == Some(w@),
            sv == (match sticky {
                Some(x) => Some(x@),
                None => None,
            }),
            on,
            !(lv.len() > 0 && lv[0].2 == CandidateKind::Number),
            w@ != RAW_LATIN@,
        decreases l@.len() - i,
    {
        assert(lv[i as int] == cand_view(l@[i as int]));
        if str_eq(l[i].1.as_str(), w.as_str()) {
            assert(find_base(lv, w@, i as int) == Some(i as int));
            let mut out: Vec<(String, String, CandidateKind)> = Vec::new();
            push_cand(&mut out, (l[i].0.clone(), l[i].1.clone(), l[i].2));
            push_all_cands(&mut out, &l, 0, i);
            push_all_cands(&mut out, &l, i + 1, l.len());
            assert(cands_view(out@) =~= seq![lv[i as int]] + lv.remove(i as int));
            return (out, false);
        }
        i += 1;
    }
    let mut out: Vec<(String, String, CandidateKind)> = Vec::new();
    let a = w.clone();
    let b = w.clone();
    push_cand(&mut out, (a, b, CandidateKind::Custom));
    push_all_cands(&mut out, &l, 0, l.len());
    assert(cands_view(out@) =~= seq![(w@, w@, CandidateKind::Custom)] + lv);
    (out, false)
}

/// The candidate list for the Latin `raw` (key `key`, `is_number` as the buffer says): the
/// number, laughter, joiner and default phrases, then the `readings` (base form, ends in
/// tanween), already ranked by the caller, with the late phrases among them; displayed, each
/// text once, the sticky choice first, at most `max_candidates - 1` of them, and the raw Latin.
pub fn candidate_list(
    raw: &str,
    key: &str,
    is_number: bool,
    s: &EngineSettings,
    phrases: &Vec<(String, bool)>,
    readings: &Vec<(String, bool)>,
    sticky: Option<String>,
    max_candidates: usize,
) -> (r: Vec<(String, String, CandidateKind)>)
    ensures
        cands_view(r@) == spec_candidate_list(
            raw@,
            key@,
            is_number,
            *s,
            pairs_view(phrases@),
            pairs_view(readings@),
            match sticky {
                Some(w) => Some(w@),
                None => None,
            },
            max_candidates as int,
        ),
{
    let it = items(raw, key, is_number, s, phrases, readings);
    let shown = display_all(&it, s.allah_form, s.hamza_relaxed);
    let unique = dedup(&shown);
    let (pinned, raw_first) = pin(unique, sticky, s.sticky_last_choice);
    let keep: usize = if max_candidates <= 1 {
        0
    } else if pinned.len() < max_candidates - 1 {
        pinned.len()
    } else {
        max_candidates - 1
    };
    let mut out: Vec<(String, String, CandidateKind)> = Vec::new();
    assert(cands_view(out@) =~= Seq::<(Seq<char>, Seq<char>, CandidateKind)>::empty());
    let raw_c = (owned(raw), owned(raw), CandidateKind::RawLatin);
    if raw_first {
        push_cand(&mut out, raw_c);
        push_all_cands(&mut out, &pinned, 0, keep);
    } else {
        push_all_cands(&mut out, &pinned, 0, keep);
        push_cand(&mut out, raw_c);
    }
    assert(cands_view(pinned@).subrange(0, keep as int) =~= cands_view(pinned@).take(keep as int));
    out
}

// ---------------------------------------------------------------------------------------------
// Laws.

proof fn lemma_display_first(items: Seq<(Seq<char>, Seq<char>, CandidateKind)>, form: AllahForm, relax: bool, n: int)
    requires
        1 <= n <= items.len(),
    ensures
        display_upto(items, form, relax, n).len() >= 1,
        display_upto(items, form, relax, n)[0].2 == items[0].2,
    decreases n,
{
    let d = displayed(items[n - 1], form, relax);
    assert(d.len() >= 1 && d[0].2 == items[n - 1].2);
    if n > 1 {
        lemma_display_first(items, form, relax, n - 1);
        let p = display_upto(items, form, relax, n - 1);
        assert((p + d)[0] == p[0]);
    } else {
        assert(display_upto(items, form, relax, 0) + d =~= d);
    }
}

proof fn lemma_dedup_first(items: Seq<(Seq<char>, Seq<char>, CandidateKind)>, n: int)
    requires
        1 <= n <= items.len(),
    ensures
        dedup_upto(items, n).len() >= 1,
        dedup_upto(items, n)[0] == items[0],
    decreases n,
{
    if n > 1 {
        lemma_dedup_first(items, n - 1);
        let p = dedup_upto(items, n - 1);
        assert(p.push(items[n - 1])[0] == p[0]);
    } else {
        assert(dedup_upto(items, 0) =~= Seq::<(Seq<char>, Seq<char>, CandidateKind)>::empty());
        assert(!shows(dedup_upto(items, 0), items[0].0));
    }
}

/// No two candidates of `l` show the same text.
pub open spec fn distinct_texts(l: Seq<(Seq<char>, Seq<char>, CandidateKind)>) -> bool {
    forall|i: int, j: int| 0 <= i < j < l.len() ==> (#[trigger] l[i]).0 != (#[trigger] l[j]).0
}

proof fn lemma_dedup_distinct(items: Seq<(Seq<char>, Seq<char>, CandidateKind)>, n: int)
    requires
        0 <= n <= items.len(),
    ensures
        distinct_texts(dedup_upto(items, n)),
    decreases n,
{
    if n > 0 {
        lemma_dedup_distinct(items, n - 1);
        let p = dedup_upto(items, n - 1);
        if !shows(p, items[n - 1].0) {
            let q = p.push(items[n - 1]);
            assert forall|i: int, j: int| 0 <= i < j < q.len() implies (#[trigger] q[i]).0 != (#[trigger] q[j]).0 by {
                if j == q.len() - 1 {
                    assert(q[i] == p[i]);
                    if q[i].0 == q[j].0 {
                        assert(shows(p, items[n - 1].0));
                    }
                } else {
                    assert(q[i] == p[i] && q[j] == p[j]);
                }
            }
        }
    }
}

proof fn lemma_phrase_kinds(phrases: Seq<(Seq<char>, bool)>, d: bool, n: int)
    ensures
        forall|i: int| 0 <= i < phrase_cands(phrases, d, n).len() ==> (#[trigger] phrase_cands(phrases, d, n)[i]).2 == CandidateKind::Phrase,
    decreases n,
{
    if n > 0 {
        lemma_phrase_kinds(phrases, d, n - 1);
    }
}

/// With no number typed, no candidate before display is a number.
proof fn lemma_no_number(raw: Seq<char>, key: Seq<char>, s: EngineSettings, phrases: Seq<(Seq<char>, bool)>, readings: Seq<(Seq<char>, bool)>)
    ensures
        forall|i: int| 0 <= i < spec_items(raw, key, false, s, phrases, readings).len() ==> (#[trigger] spec_items(raw, key, false, s, phrases, readings)[i]).2 != CandidateKind::Number,
{
    lemma_phrase_kinds(phrases, true, phrases.len() as int);
    lemma_phrase_kinds(phrases, false, phrases.len() as int);
    let items = spec_items(raw, key, false, s, phrases, readings);
    let rest = reading_cands(readings, s.tanween);
    assert forall|i: int| 0 <= i < items.len() implies (#[trigger] items[i]).2 != CandidateKind::Number by {
        assert forall|k: int| 0 <= k < rest.len() implies (#[trigger] rest[k]).2 == CandidateKind::Oov by {}
    }
}

/// A number typed comes first in the list (when the list has room for a candidate).
pub proof fn law_number_first(
    raw: Seq<char>,
    key: Seq<char>,
    s: EngineSettings,
    phrases: Seq<(Seq<char>, bool)>,
    readings: Seq<(Seq<char>, bool)>,
    sticky: Option<Seq<char>>,
    max_candidates: int,
)
    requires
        max_candidates >= 2,
    ensures
        spec_candidate_list(raw, key, true, s, phrases, readings, sticky, max_candidates)[0].2
            == CandidateKind::Number,
{
    let items = spec_items(raw, key, true, s, phrases, readings);
    assert(items[0].2 == CandidateKind::Number);
    lemma_display_first(items, s.allah_form, s.hamza_relaxed, items.len() as int);
    let shown = display_upto(items, s.allah_form, s.hamza_relaxed, items.len() as int);
    lemma_dedup_first(shown, shown.len() as int);
}

/// The list holds at least the raw Latin and at most `max_candidates` rows.
pub proof fn law_list_length(
    raw: Seq<char>,
    key: Seq<char>,
    is_number: bool,
    s: EngineSettings,
    phrases: Seq<(Seq<char>, bool)>,
    readings: Seq<(Seq<char>, bool)>,
    sticky: Option<Seq<char>>,
    max_candidates: int,
)
    requires
        max_candidates >= 1,
    ensures
        1 <= spec_candidate_list(raw, key, is_number, s, phrases, readings, sticky, max_candidates).len() <= max_candidates,
{
}

/// The raw Latin is the last row, or the first when it is the sticky choice (and no number
/// was typed, which stays first).
pub proof fn law_raw_latin_place(
    raw: Seq<char>,
    key: Seq<char>,
    is_number: bool,
    s: EngineSettings,
    phrases: Seq<(Seq<char>, bool)>,
    readings: Seq<(Seq<char>, bool)>,
    sticky: Option<Seq<char>>,
    max_candidates: int,
)
    ensures
        ({
            let r = spec_candidate_list(raw, key, is_number, s, phrases, readings, sticky, max_candidates);
            let raw_c = (raw, raw, CandidateKind::RawLatin);
            &&& !(s.sticky_last_choice && sticky == Some(RAW_LATIN@)) ==> r.last() == raw_c
            &&& (s.sticky_last_choice && sticky == Some(RAW_LATIN@) && !is_number) ==> r[0] == raw_c
        }),
{
    if !is_number {
        lemma_no_number(raw, key, s, phrases, readings);
        let items = spec_items(raw, key, false, s, phrases, readings);
        let shown = display_upto(items, s.allah_form, s.hamza_relaxed, items.len() as int);
        if items.len() >= 1 {
            lemma_display_first(items, s.allah_form, s.hamza_relaxed, items.len() as int);
            lemma_dedup_first(shown, shown.len() as int);
        } else {
            assert(shown.len() == 0);
            assert(dedup_upto(shown, 0).len() == 0);
        }
    }
}

/// Without a sticky choice to pin, no text shows twice among the candidates above the raw
/// Latin.
pub proof fn law_texts_distinct(
    raw: Seq<char>,
    key: Seq<char>,
    is_number: bool,
    s: EngineSettings,
    phrases: Seq<(Seq<char>, bool)>,
    readings: Seq<(Seq<char>, bool)>,
    sticky: Option<Seq<char>>,
    max_candidates: int,
)
    requires
        !s.sticky_last_choice || sticky is None,
    ensures
        distinct_texts(spec_candidate_list(raw, key, is_number, s, phrases, readings, sticky, max_candidates).drop_last()),
{
    let items = spec_items(raw, key, is_number, s, phrases, readings);
    let shown = display_upto(items, s.allah_form, s.hamza_relaxed, items.len() as int);
    let unique = dedup_upto(shown, shown.len() as int);
    lemma_dedup_distinct(shown, shown.len() as int);
    let r = spec_candidate_list(raw, key, is_number, s, phrases, readings, sticky, max_candidates);
    let keep: int = if max_candidates <= 1 {
        0
    } else if unique.len() < max_candidates - 1 {
        unique.len() as int
    } else {
        max_candidates - 1
    };
    assert(r.drop_last() =~= unique.take(keep));
}

// ---------------------------------------------------------------------------------------------
// The joiner.

type Cand = (Seq<char>, Seq<char>, CandidateKind);

proof fn lemma_display_bounds(items: Seq<Cand>, form: AllahForm, relax: bool, k: int, n: int)
    requires
        0 <= k <= n <= items.len(),
    ensures
        display_upto(items, form, relax, k).len() <= 2 * k,
        display_upto(items, form, relax, k).len() <= display_upto(items, form, relax, n).len(),
        forall|j: int|
            0 <= j < display_upto(items, form, relax, k).len() ==> #[trigger] display_upto(items, form, relax, n)[j]
                == display_upto(items, form, relax, k)[j],
    decreases n,
{
    if n > k {
        lemma_display_bounds(items, form, relax, k, n - 1);
        let p = display_upto(items, form, relax, n - 1);
        let d = displayed(items[n - 1], form, relax);
        assert forall|j: int| 0 <= j < p.len() implies #[trigger] (p + d)[j] == p[j] by {}
    } else if k > 0 {
        lemma_display_bounds(items, form, relax, k - 1, k - 1);
    }
}

proof fn lemma_dedup_prefix(items: Seq<Cand>, k: int, n: int)
    requires
        0 <= k <= n <= items.len(),
    ensures
        dedup_upto(items, k).len() <= k,
        dedup_upto(items, k).len() <= dedup_upto(items, n).len(),
        forall|j: int| 0 <= j < dedup_upto(items, k).len() ==> #[trigger] dedup_upto(items, n)[j] == dedup_upto(items, k)[j],
        forall|j: int|
            0 <= j < dedup_upto(items, n).len() ==> exists|q: int| 0 <= q < n && #[trigger] dedup_upto(items, n)[j] == items[q],
    decreases n,
{
    if n > 0 {
        if n > k {
            lemma_dedup_prefix(items, k, n - 1);
        } else {
            lemma_dedup_prefix(items, k - 1, k - 1);
        }
        lemma_dedup_prefix(items, n - 1, n - 1);
        let p = dedup_upto(items, n - 1);
        let r = dedup_upto(items, n);
        assert forall|j: int| 0 <= j < p.len() implies #[trigger] r[j] == p[j] by {
            if !shows(p, items[n - 1].0) {
                assert(p.push(items[n - 1])[j] == p[j]);
            }
        }
        assert forall|j: int| 0 <= j < r.len() implies exists|q: int| 0 <= q < n && #[trigger] r[j] == items[q] by {
            if j < p.len() {
                let q = choose|q: int| 0 <= q < n - 1 && #[trigger] p[j] == items[q];
                assert(r[j] == items[q]);
            } else {
                assert(r[j] == items[n - 1]);
            }
        }
    } else {
        assert(dedup_upto(items, 0) =~= Seq::<Cand>::empty());
    }
}

/// The first `n` candidates keep, after removing repeated texts, the text of candidate `p` at a
/// place no later than `p`.
proof fn lemma_dedup_keeps(items: Seq<Cand>, n: int, p: int)
    requires
        0 <= p < n <= items.len(),
    ensures
        exists|i: int| 0 <= i <= p && i < dedup_upto(items, n).len() && (#[trigger] dedup_upto(items, n)[i]).0 == items[p].0,
{
    lemma_dedup_prefix(items, p, p);
    lemma_dedup_prefix(items, p + 1, n);
    let d = dedup_upto(items, p);
    let d1 = dedup_upto(items, p + 1);
    let r = dedup_upto(items, n);
    if shows(d, items[p].0) {
        let i = choose|i: int| 0 <= i < d.len() && (#[trigger] d[i]).0 == items[p].0;
        assert(d1 == d);
        assert(r[i] == d1[i]);
    } else {
        let i = d.len() as int;
        assert(d1[i] == items[p]);
        assert(r[i] == d1[i]);
    }
}

proof fn lemma_find_base_range(l: Seq<Cand>, w: Seq<char>, i: int)
    requires
        0 <= i,
    ensures
        find_base(l, w, i) matches Some(p) ==> i <= p < l.len(),
    decreases l.len() - i,
{
    if i < l.len() && l[i].1 != w {
        lemma_find_base_range(l, w, i + 1);
    }
}

/// Pinning the sticky choice moves any candidate back by at most one place (or to the front).
proof fn lemma_pin_keeps(l: Seq<Cand>, sticky: Option<Seq<char>>, on: bool, i: int)
    requires
        0 <= i < l.len(),
    ensures
        exists|j: int| 0 <= j <= i + 1 && j < spec_pin(l, sticky, on).0.len() && #[trigger] spec_pin(l, sticky, on).0[j] == l[i],
{
    let pinned_number = l.len() > 0 && l[0].2 == CandidateKind::Number;
    let pn = spec_pin(l, sticky, on).0;
    if on && !pinned_number && sticky is Some {
        let w = sticky->0;
        if w == RAW_LATIN@ {
            assert(pn[i] == l[i]);
        } else {
            lemma_find_base_range(l, w, 0);
            match find_base(l, w, 0) {
                Some(p) => {
                    if p == i {
                        assert(pn[0] == l[i]);
                    } else if p < i {
                        assert(pn[i] == l[i]);
                    } else {
                        assert(pn[i + 1] == l[i]);
                    }
                },
                None => {
                    assert(pn[i + 1] == l[i]);
                },
            }
        }
    } else {
        assert(pn[i] == l[i]);
    }
}

/// What a list built from `pinned` holds of it: every candidate at a place before `keep`.
proof fn lemma_final_keeps(raw: Seq<char>, key: Seq<char>, is_number: bool, s: EngineSettings, phrases: Seq<(Seq<char>, bool)>, readings: Seq<(Seq<char>, bool)>, sticky: Option<Seq<char>>, max_candidates: int, c: Cand, j: int)
    requires
        ({
            let items = spec_items(raw, key, is_number, s, phrases, readings);
            let shown = display_upto(items, s.allah_form, s.hamza_relaxed, items.len() as int);
            let unique = dedup_upto(shown, shown.len() as int);
            let pinned = spec_pin(unique, sticky, s.sticky_last_choice).0;
            0 <= j < pinned.len() && pinned[j] == c && j < max_candidates - 1
        }),
    ensures
        spec_candidate_list(raw, key, is_number, s, phrases, readings, sticky, max_candidates).contains(c),
{
    let items = spec_items(raw, key, is_number, s, phrases, readings);
    let shown = display_upto(items, s.allah_form, s.hamza_relaxed, items.len() as int);
    let unique = dedup_upto(shown, shown.len() as int);
    let (pinned, raw_first) = spec_pin(unique, sticky, s.sticky_last_choice);
    let r = spec_candidate_list(raw, key, is_number, s, phrases, readings, sticky, max_candidates);
    let keep: int = if max_candidates <= 1 {
        0
    } else if pinned.len() < max_candidates - 1 {
        pinned.len() as int
    } else {
        max_candidates - 1
    };
    assert(j < keep);
    if raw_first {
        assert(r[j + 1] == pinned[j]);
    } else {
        assert(r[j] == pinned[j]);
    }
}

/// A one- or two-letter joiner is no sacred word, and relaxing hamza leaves it as it is.
proof fn lemma_joiner_plain(t: Seq<char>)
    requires
        t == seq!['\u{0648}'] || t == seq!['\u{0627}', '\u{0644}'],
    ensures
        !spec_contains_sacred(spec_strip_marks(t)),
        t.map_values(|x: char| relaxed(x)) == t,
        spec_strip_marks(t) == t,
{
    reveal_strlit("الله");
    reveal_strlit("والله");
    reveal_strlit("بالله");
    reveal_strlit("تالله");
    reveal_strlit("فالله");
    reveal_strlit("لله");
    reveal_strlit("ولله");
    reveal_strlit("فلله");
    reveal_strlit("اللهم");
    assert(t.map_values(|x: char| relaxed(x)) =~= t);
    if t.len() == 1 {
        crate::arabic::lemma_strip_one(t[0]);
        assert(t =~= seq![t[0]]);
    } else {
        crate::arabic::lemma_strip_one(t[0]);
        crate::arabic::lemma_strip_one(t[1]);
        crate::arabic::lemma_strip_add(seq![t[0]], seq![t[1]]);
        assert(t =~= seq![t[0]] + seq![t[1]]);
    }
    let w = spec_strip_marks(t);
    assert(w == t);
    let e = Seq::<char>::empty();
    crate::arabic::lemma_strip_one(t[0]);
    assert(e.push(t[0]) =~= seq![t[0]]);
    if t.len() == 1 {
        assert(sacred_from(t, 1, seq![t[0]]) == spec_is_sacred(spec_strip_marks(seq![t[0]])));
        assert(sacred_from(t, 0, e) == sacred_from(t, 1, seq![t[0]]));
    } else {
        let w2 = seq![t[0]].push(t[1]);
        assert(w2 =~= t);
        assert(sacred_from(t, 2, w2) == spec_is_sacred(spec_strip_marks(w2)));
        assert(sacred_from(t, 1, seq![t[0]]) == sacred_from(t, 2, w2));
        assert(sacred_from(t, 0, e) == sacred_from(t, 1, seq![t[0]]));
    }
}

proof fn lemma_joiner_key(key: Seq<char>)
    requires
        key == "w"@ || key == "wa"@ || key == "we"@ || key == "el"@ || key == "al"@ || key == "il"@ || key == "l"@,
    ensures
        joiner_text(key) == Some(
            if key == "w"@ || key == "wa"@ || key == "we"@ {
                seq!['\u{0648}']
            } else {
                seq!['\u{0627}', '\u{0644}']
            },
        ),
{
    reveal_strlit("w");
    reveal_strlit("wa");
    reveal_strlit("we");
    reveal_strlit("el");
    reveal_strlit("al");
    reveal_strlit("il");
    reveal_strlit("l");
    reveal_strlit("\u{0648}");
    reveal_strlit("\u{0627}\u{0644}");
    assert("\u{0648}"@ =~= seq!['\u{0648}']);
    assert("\u{0627}\u{0644}"@ =~= seq!['\u{0627}', '\u{0644}']);
    assert("w"@ =~= seq!['w']);
    assert("wa"@ =~= seq!['w', 'a']);
    assert("we"@ =~= seq!['w', 'e']);
    assert("el"@ =~= seq!['e', 'l']);
    assert("al"@ =~= seq!['a', 'l']);
    assert("il"@ =~= seq!['i', 'l']);
    assert("l"@ =~= seq!['l']);
    if key == "w"@ || key == "wa"@ || key == "we"@ {
        assert(key[0] == 'w');
        assert(!(key == "el"@ || key == "al"@ || key == "il"@ || key == "l"@)) by {
            if key == "el"@ || key == "al"@ || key == "il"@ || key == "l"@ {
                assert(key[0] != 'w');
            }
        }
    }
}

/// The joiner `t` of `key` is shown in the list (and as a joiner when the word is no laughter).
#[verifier::rlimit(40)]
proof fn lemma_joiner_in_list(
    raw: Seq<char>,
    key: Seq<char>,
    s: EngineSettings,
    phrases: Seq<(Seq<char>, bool)>,
    readings: Seq<(Seq<char>, bool)>,
    sticky: Option<Seq<char>>,
    max_candidates: int,
    t: Seq<char>,
)
    requires
        s.article_joining,
        joiner_text(key) == Some(t),
        t == seq!['\u{0648}'] || t == seq!['\u{0627}', '\u{0644}'],
        max_candidates >= 3,
    ensures
        ({
            let r = spec_candidate_list(raw, key, false, s, phrases, readings, sticky, max_candidates);
            &&& max_candidates >= 5 ==> exists|i: int| 0 <= i < r.len() && (#[trigger] r[i]).0 == t
            &&& !(raw.len() > 0 && is_laughter(raw)) ==> exists|i: int|
                0 <= i < r.len() && (#[trigger] r[i]).0 == t && r[i].2 == CandidateKind::Joiner
        }),
{
    lemma_joiner_plain(t);
    let form = s.allah_form;
    let relax = s.hamza_relaxed;
    let items = spec_items(raw, key, false, s, phrases, readings);
    let jc = plain_cand(t, CandidateKind::Joiner);
    let lau = raw.len() > 0 && is_laughter(raw);
    let jl: int = if lau { 1 } else { 0 };
    assert(arabizi_allowed(raw, false));
    assert(items[jl] == jc);
    let shown = display_upto(items, form, relax, items.len() as int);
    lemma_display_bounds(items, form, relax, jl, jl + 1);
    lemma_display_bounds(items, form, relax, jl + 1, items.len() as int);
    let p = display_upto(items, form, relax, jl).len() as int;
    let dj = displayed(jc, form, relax);
    assert(dj == seq![(t, t, CandidateKind::Joiner)]);
    assert(display_upto(items, form, relax, jl + 1) == display_upto(items, form, relax, jl) + dj);
    assert(display_upto(items, form, relax, jl + 1)[p] == (t, t, CandidateKind::Joiner));
    assert(shown[p] == (t, t, CandidateKind::Joiner));
    assert(p <= 2);
    let unique = dedup_upto(shown, shown.len() as int);
    lemma_dedup_keeps(shown, shown.len() as int, p);
    let i = choose|i: int| 0 <= i <= p && i < unique.len() && (#[trigger] unique[i]).0 == shown[p].0;
    lemma_pin_keeps(unique, sticky, s.sticky_last_choice, i);
    let pinned = spec_pin(unique, sticky, s.sticky_last_choice).0;
    let j = choose|j: int| 0 <= j <= i + 1 && j < pinned.len() && #[trigger] pinned[j] == unique[i];
    let r = spec_candidate_list(raw, key, false, s, phrases, readings, sticky, max_candidates);
    if max_candidates >= 5 {
        lemma_final_keeps(raw, key, false, s, phrases, readings, sticky, max_candidates, unique[i], j);
        let k = choose|k: int| 0 <= k < r.len() && r[k] == unique[i];
        assert(r[k].0 == t);
    }
    if !lau {
        assert(p == 0);
        lemma_dedup_first(shown, shown.len() as int);
        assert(i == 0);
        lemma_final_keeps(raw, key, false, s, phrases, readings, sticky, max_candidates, unique[i], j);
        let k = choose|k: int| 0 <= k < r.len() && r[k] == unique[i];
        assert(r[k].0 == t && r[k].2 == CandidateKind::Joiner);
    }
}

/// With article joining on, typing a conjunction (`w`, `wa`, `we`) offers the joiner waw
/// (U+0648) and typing an article (`el`, `al`, `il`, `l`) offers alef-lam (U+0627 U+0644): the
/// list shows that text whenever it has room for five rows; and when the word is no laughter it
/// shows it as a joiner candidate, given room for three rows.
pub proof fn law_joiner_offered(
    raw: Seq<char>,
    key: Seq<char>,
    s: EngineSettings,
    phrases: Seq<(Seq<char>, bool)>,
    readings: Seq<(Seq<char>, bool)>,
    sticky: Option<Seq<char>>,
    max_candidates: int,
)
    requires
        s.article_joining,
        key == "w"@ || key == "wa"@ || key == "we"@ || key == "el"@ || key == "al"@ || key == "il"@ || key == "l"@,
        max_candidates >= 3,
    ensures
        ({
            let r = spec_candidate_list(raw, key, false, s, phrases, readings, sticky, max_candidates);
            let t = if key == "w"@ || key == "wa"@ || key == "we"@ {
                seq!['\u{0648}']
            } else {
                seq!['\u{0627}', '\u{0644}']
            };
            &&& max_candidates >= 5 ==> exists|i: int| 0 <= i < r.len() && (#[trigger] r[i]).0 == t
            &&& !(raw.len() > 0 && is_laughter(raw)) ==> exists|i: int|
                0 <= i < r.len() && (#[trigger] r[i]).0 == t && r[i].2 == CandidateKind::Joiner
        }),
{
    lemma_joiner_key(key);
    let t = if key == "w"@ || key == "wa"@ || key == "we"@ {
        seq!['\u{0648}']
    } else {
        seq!['\u{0627}', '\u{0644}']
    };
    lemma_joiner_in_list(raw, key, s, phrases, readings, sticky, max_candidates, t);
}

} // verus!
