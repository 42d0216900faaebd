//! `config.toml`: a minimal TOML-subset reader and the typed configuration.
//! Supported syntax: comments, `[section]`, `key = "string" | integer | true/false | ["a", "b"]`
//! (one line).
use vstd::prelude::*;
use crate::dialect::{chars_eq_ignore_case, eq_ignore_case};
use crate::display::{AllahForm, TanweenStyle};
use crate::normalize::{ascii_alpha, ascii_digit, lower_of, to_lower};
use crate::session::EngineSettings;
use crate::tashkeel::HarakatMode;

pub mod roundtrip;
use crate::text::{
    chars_of, decimal, eq_lit, int_text, lemma_split_nonempty, parse_i64, push_char, push_chars,
    push_decimal, push_int, push_str, spec_parse_i64, spec_trim, split_chars, split_on, str_eq,
    string_of, trim_chars,
};

verus! {

#[derive(Clone, Debug, PartialEq)]
pub enum Value {
    Str(String),
    Int(i64),
    Bool(bool),
    List(Vec<String>),
}

/// A value as plain values.
pub enum VView {
    Str(Seq<char>),
    Int(i64),
    Bool(bool),
    List(Seq<Seq<char>>),
}

pub open spec fn strings_view(v: Seq<String>) -> Seq<Seq<char>> {
    v.map_values(|s: String| s@)
}

impl View for Value {
    type V = VView;

    open spec fn view(&self) -> VView {
        match self {
            Value::Str(s) => VView::Str(s@),
            Value::Int(n) => VView::Int(*n),
            Value::Bool(b) => VView::Bool(*b),
            Value::List(l) => VView::List(strings_view(l@)),
        }
    }
}

pub(crate) fn strings_of(parts: &Vec<Vec<char>>) -> (r: Vec<String>)
    ensures
        strings_view(r@) == parts@.map_values(|w: Vec<char>| w@),
{
    let mut r: Vec<String> = Vec::new();
    let mut i: usize = 0;
    while i < parts.len()
        invariant
            i <= parts@.len(),
            r@.len() == i,
            forall|j: int| 0 <= j < i ==> #[trigger] r@[j]@ == parts@[j]@,
        decreases parts@.len() - i,
    {
        let s = string_of(parts[i].as_slice());
        r.push(s);
        i += 1;
    }
    assert(strings_view(r@) =~= parts@.map_values(|w: Vec<char>| w@));
    r
}

// ---------------------------------------------------------------------------------------------
// Lines.

/// `l` without one trailing carriage return.
pub open spec fn drop_cr(l: Seq<char>) -> Seq<char> {
    if l.len() > 0 && l.last() == '\r' {
        l.drop_last()
    } else {
        l
    }
}

/// The lines of `s` as Rust's `str::lines` yields them: split at `\n`, a `\r` before it
/// dropped, no final empty line.
pub open spec fn text_lines(s: Seq<char>) -> Seq<Seq<char>> {
    let ps = split_on(s, '\n');
    let n: int = if ps.len() > 0 && ps.last().len() == 0 {
        ps.len() - 1
    } else {
        ps.len() as int
    };
    Seq::new(n as nat, |i: int| if i < ps.len() - 1 { drop_cr(ps[i]) } else { ps[i] })
}

pub(crate) fn lines_of(text: &str) -> (r: Vec<Vec<char>>)
    ensures
        r@.map_values(|w: Vec<char>| w@) == text_lines(text@),
{
    let cs = chars_of(text);
    let ps = split_chars(cs.as_slice(), '\n');
    let ghost pv = ps@.map_values(|w: Vec<char>| w@);
    proof {
        lemma_split_nonempty(text@, '\n');
    }
    let np = ps.len();
    let n = if ps[np - 1].len() == 0 { np - 1 } else { np };
    let mut r: Vec<Vec<char>> = Vec::new();
    let mut i: usize = 0;
    while i < n
        invariant
            i <= n <= np,
            np == ps@.len(),
            pv == ps@.map_values(|w: Vec<char>| w@),
            pv == split_on(text@, '\n'),
            n == (if pv.last().len() == 0 { np - 1 } else { np as int }),
            r@.len() == i,
            forall|k: int| 0 <= k < i ==> #[trigger] r@[k]@ == text_lines(text@)[k],
        decreases n - i,
    {
        let p = &ps[i];
        let m = p.len();
        let mut line: Vec<char> = Vec::new();
        let cut = if i + 1 < np && m > 0 && p[m - 1] == '\r' { m - 1 } else { m };
        let mut j: usize = 0;
        while j < cut
            invariant
                j <= cut <= m,
                m == p@.len(),
                line@ =~= p@.take(j as int),
            decreases cut - j,
        {
            line.push(p[j]);
            j += 1;
        }
        assert(pv[i as int] == p@);
        assert(line@ =~= (if i < np - 1 { drop_cr(pv[i as int]) } else { pv[i as int] }));
        r.push(line);
        i += 1;
    }
    assert(r@.map_values(|w: Vec<char>| w@) =~= text_lines(text@));
    r
}

/// Where a `#` comment starts in `s` (outside double quotes), or the length.
pub open spec fn comment_cut(s: Seq<char>, i: int, in_str: bool) -> int
    decreases s.len() - i,
{
    if i >= s.len() {
        s.len() as int
    } else if s[i] == '"' {
        comment_cut(s, i + 1, !in_str)
    } else if s[i] == '#' && !in_str {
        i
    } else {
        comment_cut(s, i + 1, in_str)
    }
}

pub open spec fn strip_comment(s: Seq<char>) -> Seq<char> {
    s.take(comment_cut(s, 0, false))
}

fn strip_comment_chars(s: &[char]) -> (r: Vec<char>)
    ensures
        r@ == strip_comment(s@),
{
    let mut in_str = false;
    let mut i: usize = 0;
    while i < s.len() && !(s[i] == '#' && !in_str)
        invariant
            i <= s@.len(),
            comment_cut(s@, 0, false) == comment_cut(s@, i as int, in_str),
        decreases s@.len() - i,
    {
        if s[i] == '"' {
            in_str = !in_str;
        }
        i += 1;
    }
    let mut r: Vec<char> = Vec::new();
    let mut j: usize = 0;
    while j < i
        invariant
            j <= i <= s@.len(),
            r@ =~= s@.take(j as int),
        decreases i - j,
    {
        r.push(s[j]);
        j += 1;
    }
    r
}

/// The first index at or after `i` holding `c`.
pub open spec fn find_char(s: Seq<char>, c: char, i: int) -> Option<int>
    decreases s.len() - i,
{
    if i >= s.len() {
        None
    } else if s[i] == c {
        Some(i)
    } else {
        find_char(s, c, i + 1)
    }
}

fn find_char_in(s: &[char], c: char) -> (r: Option<usize>)
    ensures
        match r {
            Some(j) => find_char(s@, c, 0) == Some(j as int) && j < s@.len(),
            None => find_char(s@, c, 0) is None,
        },
{
    let mut i: usize = 0;
    while i < s.len()
        invariant
            i <= s@.len(),
            find_char(s@, c, 0) == find_char(s@, c, i as int),
        decreases s@.len() - i,
    {
        if s[i] == c {
            return Some(i);
        }
        i += 1;
    }
    None
}

/// What a line of a TOML file is.
pub enum LineKind {
    Blank,
    Section(Seq<char>),
    NoEquals,
    Pair(Seq<char>, Seq<char>),
}

pub open spec fn line_kind(raw: Seq<char>) -> LineKind {
    let line = spec_trim(strip_comment(raw));
    if line.len() == 0 {
        LineKind::Blank
    } else if line[0] == '[' && line.last() == ']' {
        LineKind::Section(spec_trim(line.subrange(1, line.len() - 1)))
    } else {
        match find_char(line, '=', 0) {
            None => LineKind::NoEquals,
            Some(j) => LineKind::Pair(line.take(j), line.skip(j + 1)),
        }
    }
}

// ---------------------------------------------------------------------------------------------
// Values.

/// A double-quoted string (after trimming): its inside.
pub open spec fn spec_parse_str(v: Seq<char>) -> Option<Seq<char>> {
    let t = spec_trim(v);
    if t.len() >= 2 && t[0] == '"' && t.last() == '"' {
        Some(t.subrange(1, t.len() - 1))
    } else {
        None
    }
}

fn parse_str(v: &[char]) -> (r: Option<Vec<char>>)
    ensures
        match r {
            Some(s) => spec_parse_str(v@) == Some(s@),
            None => spec_parse_str(v@) is None,
        },
{
    let t = trim_chars(v);
    let n = t.len();
    if n >= 2 && t[0] == '"' && t[n - 1] == '"' {
        let mut s: Vec<char> = Vec::new();
        let mut i: usize = 1;
        while i < n - 1
            invariant
                1 <= i <= n - 1,
                n == t@.len(),
                s@ =~= t@.subrange(1, i as int),
            decreases n - 1 - i,
        {
            s.push(t[i]);
            i += 1;
        }
        Some(s)
    } else {
        None
    }
}

/// The strings of the first `k` list items, if each is a quoted string.
pub open spec fn strs_of(parts: Seq<Seq<char>>, k: int) -> Option<Seq<Seq<char>>>
    decreases k,
{
    if k <= 0 {
        Some(Seq::empty())
    } else {
        match strs_of(parts, k - 1) {
            None => None,
            Some(l) => match spec_parse_str(parts[k - 1]) {
                None => None,
                Some(x) => Some(l.push(x)),
            },
        }
    }
}

proof fn lemma_strs_none_stays(parts: Seq<Seq<char>>, k: int, j: int)
    requires
        0 <= k <= j,
        strs_of(parts, k) is None,
    ensures
        strs_of(parts, j) is None,
    decreases j - k,
{
    if j > k {
        lemma_strs_none_stays(parts, k, j - 1);
    }
}

/// A value: a quoted string, `true` / `false`, an integer, or a list of quoted strings.
pub open spec fn spec_parse_value(v: Seq<char>) -> Option<VView> {
    match spec_parse_str(v) {
        Some(s) => Some(VView::Str(s)),
        None => if v == "true"@ {
            Some(VView::Bool(true))
        } else if v == "false"@ {
            Some(VView::Bool(false))
        } else {
            match spec_parse_i64(v) {
                Some(n) => Some(VView::Int(n as i64)),
                None => if v.len() >= 1 && v[0] == '[' && v.last() == ']' {
                    let inner = spec_trim(v.subrange(1, v.len() - 1));
                    if inner.len() == 0 {
                        Some(VView::List(Seq::empty()))
                    } else {
                        match strs_of(split_on(inner, ','), split_on(inner, ',').len() as int) {
                            Some(l) => Some(VView::List(l)),
                            None => None,
                        }
                    }
                } else {
                    None
                },
            }
        },
    }
}

fn parse_value(v: &[char]) -> (r: Option<Value>)
    ensures
        match r {
            Some(x) => spec_parse_value(v@) == Some(x@),
            None => spec_parse_value(v@) is None,
        },
{
    if let Some(s) = parse_str(v) {
        return Some(Value::Str(string_of(s.as_slice())));
    }
    if eq_lit(v, "true") {
        return Some(Value::Bool(true));
    }
    if eq_lit(v, "false") {
        return Some(Value::Bool(false));
    }
    if let Some(n) = parse_i64(v) {
        return Some(Value::Int(n));
    }
    let n = v.len();
    if n >= 1 && v[0] == '[' && v[n - 1] == ']' {
        let mut body: Vec<char> = Vec::new();
        let mut i: usize = 1;
        while i < n - 1
            invariant
                1 <= i <= n - 1,
                n == v@.len(),
                body@ =~= v@.subrange(1, i as int),
            decreases n - 1 - i,
        {
            body.push(v[i]);
            i += 1;
        }
        let inner = trim_chars(body.as_slice());
        if inner.len() == 0 {
            let empty: Vec<String> = Vec::new();
            assert(strings_view(empty@) =~= Seq::<Seq<char>>::empty());
            return Some(Value::List(empty));
        }
        let parts = split_chars(inner.as_slice(), ',');
        let ghost pv = parts@.map_values(|w: Vec<char>| w@);
        let mut items: Vec<Vec<char>> = Vec::new();
        let mut k: usize = 0;
        while k < parts.len()
            invariant
                k <= parts@.len(),
                pv == parts@.map_values(|w: Vec<char>| w@),
                pv == split_on(inner@, ','),
                inner@ == spec_trim(v@.subrange(1, n - 1)),
                inner@.len() > 0,
                n == v@.len(),
                n >= 1 && v@[0] == '[' && v@[n - 1] == ']',
                spec_parse_str(v@) is None,
                v@ != "true"@,
                v@ != "false"@,
                spec_parse_i64(v@) is None,
                strs_of(pv, k as int) == Some(items@.map_values(|w: Vec<char>| w@)),
            decreases parts@.len() - k,
        {
            assert(pv[k as int] == parts@[k as int]@);
            match parse_str(parts[k].as_slice()) {
                None => {
                    proof {
                        lemma_strs_none_stays(pv, k + 1, pv.len() as int);
                    }
                    return None;
                },
                Some(x) => {
                    let ghost before = items@.map_values(|w: Vec<char>| w@);
                    items.push(x);
                    assert(items@.map_values(|w: Vec<char>| w@) =~= before.push(x@));
                },
            }
            k += 1;
        }
        let l = strings_of(&items);
        return Some(Value::List(l));
    }
    None
}

fn clone_value(v: &Value) -> (r: Value)
    ensures
        r@ == v@,
{
    match v {
        Value::Str(s) => Value::Str(s.clone()),
        Value::Int(n) => Value::Int(*n),
        Value::Bool(b) => Value::Bool(*b),
        Value::List(l) => {
            let mut c: Vec<String> = Vec::new();
            let mut i: usize = 0;
            while i < l.len()
                invariant
                    i <= l@.len(),
                    c@.len() == i,
                    forall|j: int| 0 <= j < i ==> #[trigger] c@[j]@ == l@[j]@,
                decreases l@.len() - i,
            {
                c.push(l[i].clone());
                i += 1;
            }
            assert(strings_view(c@) =~= strings_view(l@));
            Value::List(c)
        },
    }
}

// ---------------------------------------------------------------------------------------------
// The reader.

/// The reader's state after some lines: the current section, the pairs read and the warnings.
pub struct TomlState {
    pub section: Seq<char>,
    pub pairs: Seq<(Seq<char>, VView)>,
    pub warnings: Seq<Seq<char>>,
}

pub open spec fn line_label(n: int) -> Seq<char> {
    "line "@ + decimal(n as nat)
}

/// The state after line number `n` (counted from 1) whose text is `raw`.
pub open spec fn toml_step(st: TomlState, raw: Seq<char>, n: int) -> TomlState {
    match line_kind(raw) {
        LineKind::Blank => st,
        LineKind::Section(name) => TomlState { section: name, ..st },
        LineKind::NoEquals => TomlState {
            warnings: st.warnings.push(line_label(n) + ": expected key = value"@),
            ..st
        },
        LineKind::Pair(k, v) => {
            let key = if st.section.len() == 0 {
                spec_trim(k)
            } else {
                st.section + "."@ + spec_trim(k)
            };
            match spec_parse_value(spec_trim(v)) {
                Some(val) => TomlState { pairs: st.pairs.push((key, val)), ..st },
                None => TomlState {
                    warnings: st.warnings.push(line_label(n) + ": cannot parse value for "@ + key),
                    ..st
                },
            }
        },
    }
}

pub open spec fn toml_upto(lines: Seq<Seq<char>>, k: int) -> TomlState
    decreases k,
{
    if k <= 0 {
        TomlState { section: Seq::empty(), pairs: Seq::empty(), warnings: Seq::empty() }
    } else {
        toml_step(toml_upto(lines, k - 1), lines[k - 1], k)
    }
}

/// The `(section.key, value)` pairs of `text` and the warnings for its malformed lines.
pub open spec fn spec_parse_toml(text: Seq<char>) -> TomlState {
    toml_upto(text_lines(text), text_lines(text).len() as int)
}

pub open spec fn pairs_view(v: Seq<(String, Value)>) -> Seq<(Seq<char>, VView)> {
    v.map_values(|p: (String, Value)| (p.0@, p.1@))
}

/// Parse into `(section.key, value)` pairs. Malformed lines become warnings.
pub fn parse_toml(text: &str) -> (r: (Vec<(String, Value)>, Vec<String>))
    ensures
        pairs_view(r.0@) == spec_parse_toml(text@).pairs,
        strings_view(r.1@) == spec_parse_toml(text@).warnings,
{
    let lines = lines_of(text);
    let ghost lv = lines@.map_values(|w: Vec<char>| w@);
    let mut out: Vec<(String, Value)> = Vec::new();
    let mut warnings: Vec<String> = Vec::new();
    let mut section: Vec<char> = Vec::new();
    let mut i: usize = 0;
    while i < lines.len()
        invariant
            i <= lines@.len(),
            lv == lines@.map_values(|w: Vec<char>| w@),
            lv == text_lines(text@),
            pairs_view(out@) == toml_upto(lv, i as int).pairs,
            strings_view(warnings@) == toml_upto(lv, i as int).warnings,
            section@ == toml_upto(lv, i as int).section,
        decreases lines@.len() - i,
    {
        assert(lv[i as int] == lines@[i as int]@);
        let ghost st = toml_upto(lv, i as int);
        let stripped = strip_comment_chars(lines[i].as_slice());
        let line = trim_chars(stripped.as_slice());
        let n = line.len();
        if n == 0 {
        } else if line[0] == '[' && line[n - 1] == ']' {
            let mut inner: Vec<char> = Vec::new();
            let mut j: usize = 1;
            while j < n - 1
                invariant
                    1 <= j <= n - 1,
                    n == line@.len(),
                    inner@ =~= line@.subrange(1, j as int),
                decreases n - 1 - j,
            {
                inner.push(line[j]);
                j += 1;
            }
            section = trim_chars(inner.as_slice());
        } else {
            match find_char_in(line.as_slice(), '=') {
                None => {
                    let mut w = String::new();
                    push_str(&mut w, "line ");
                    push_decimal(&mut w, (i + 1) as u64);
                    push_str(&mut w, ": expected key = value");
                    let ghost before = strings_view(warnings@);
                    warnings.push(w);
                    assert(strings_view(warnings@) =~= before.push(
                        line_label(i + 1) + ": expected key = value"@,
                    ));
                },
                Some(j) => {
                    let mut kpart: Vec<char> = Vec::new();
                    let mut vpart: Vec<char> = Vec::new();
                    let mut t: usize = 0;
                    while t < n
                        invariant
                            t <= n,
                            j < n,
                            n == line@.len(),
                            kpart@ =~= line@.take(if t < j { t as int } else { j as int }),
                            vpart@ =~= (if t <= j { Seq::empty() } else { line@.subrange(j + 1, t as int) }),
                        decreases n - t,
                    {
                        if t < j {
                            kpart.push(line[t]);
                        } else if t > j {
                            vpart.push(line[t]);
                        }
                        t += 1;
                    }
                    let ktrim = trim_chars(kpart.as_slice());
                    let mut key = String::new();
                    if section.len() > 0 {
                        push_chars(&mut key, section.as_slice());
                        push_char(&mut key, '.');
                    }
                    push_chars(&mut key, ktrim.as_slice());
                    assert(key@ =~= (if st.section.len() == 0 {
                        spec_trim(line@.take(j as int))
                    } else {
                        st.section + "."@ + spec_trim(line@.take(j as int))
                    })) by {
                        reveal_strlit(".");
                    }
                    let vtrim = trim_chars(vpart.as_slice());
                    match parse_value(vtrim.as_slice()) {
                        Some(val) => {
                            let ghost before = pairs_view(out@);
                            let ghost kv = key@;
                            let ghost vv = val@;
                            out.push((key, val));
                            assert(pairs_view(out@) =~= before.push((kv, vv)));
                        },
                        None => {
                            let mut w = String::new();
                            push_str(&mut w, "line ");
                            push_decimal(&mut w, (i + 1) as u64);
                            push_str(&mut w, ": cannot parse value for ");
                            push_str(&mut w, key.as_str());
                            let ghost before = strings_view(warnings@);
                            warnings.push(w);
                            assert(strings_view(warnings@) =~= before.push(
                                line_label(i + 1) + ": cannot parse value for "@ + key@,
                            ));
                        },
                    }
                },
            }
        }
        i += 1;
    }
    (out, warnings)
}

// ---------------------------------------------------------------------------------------------
// Shortcuts.

pub open spec fn lower_str(s: Seq<char>) -> Seq<char> {
    s.map_values(|c: char| lower_of(c))
}

fn lower_chars(v: &[char]) -> (r: Vec<char>)
    ensures
        r@ == lower_str(v@),
{
    let mut r: Vec<char> = Vec::new();
    let mut i: usize = 0;
    while i < v.len()
        invariant
            i <= v@.len(),
            r@ =~= lower_str(v@.take(i as int)),
        decreases v@.len() - i,
    {
        r.push(to_lower(v[i]));
        i += 1;
    }
    assert(v@.take(v@.len() as int) =~= v@);
    r
}

/// The `+`-separated parts of `s`, trimmed and in ASCII lower case.
pub open spec fn chord_parts(s: Seq<char>) -> Seq<Seq<char>> {
    split_on(s, '+').map_values(|p: Seq<char>| lower_str(spec_trim(p)))
}

pub(crate) fn chord_parts_of(s: &str) -> (r: Vec<Vec<char>>)
    ensures
        r@.map_values(|w: Vec<char>| w@) == chord_parts(s@),
        r@.len() >= 1,
{
    let cs = chars_of(s);
    let ps = split_chars(cs.as_slice(), '+');
    proof {
        lemma_split_nonempty(s@, '+');
    }
    let mut r: Vec<Vec<char>> = Vec::new();
    let mut i: usize = 0;
    while i < ps.len()
        invariant
            i <= ps@.len(),
            ps@.map_values(|w: Vec<char>| w@) == split_on(s@, '+'),
            r@.len() == i,
            forall|k: int| 0 <= k < i ==> #[trigger] r@[k]@ == chord_parts(s@)[k],
        decreases ps@.len() - i,
    {
        assert(ps@.map_values(|w: Vec<char>| w@)[i as int] == ps@[i as int]@);
        let t = trim_chars(ps[i].as_slice());
        r.push(lower_chars(t.as_slice()));
        i += 1;
    }
    assert(r@.map_values(|w: Vec<char>| w@) =~= chord_parts(s@));
    r
}

pub open spec fn is_mod_name(m: Seq<char>) -> bool {
    m == "ctrl"@ || m == "alt"@ || m == "shift"@
}

pub open spec fn has_part(mods: Seq<Seq<char>>, m: Seq<char>) -> bool {
    exists|i: int| 0 <= i < mods.len() && mods[i] == m
}

/// A `[keys]` chord: `none`, or `Mod+…+Key` with modifiers Ctrl/Alt/Shift and a key name (Tab;
/// Space, Enter, Backspace with a modifier; a letter or digit with Ctrl or Alt).
pub open spec fn spec_is_chord(s: Seq<char>) -> bool {
    if eq_ignore_case(s, "none"@) {
        true
    } else {
        let parts = chord_parts(s);
        let key = parts.last();
        let mods = parts.drop_last();
        if !(forall|i: int| 0 <= i < mods.len() ==> is_mod_name(#[trigger] mods[i])) {
            false
        } else if key == "tab"@ {
            true
        } else if key == "space"@ || key == "enter"@ || key == "backspace"@ {
            mods.len() > 0
        } else if key.len() == 1 && (ascii_alpha(key[0]) || ascii_digit(key[0])) {
            has_part(mods, "ctrl"@) || has_part(mods, "alt"@)
        } else {
            false
        }
    }
}

fn has_part_in(mods: &[Vec<char>], m: &str) -> (r: bool)
    ensures
        r == has_part(mods@.map_values(|w: Vec<char>| w@), m@),
{
    let ghost mv = mods@.map_values(|w: Vec<char>| w@);
    let mut i: usize = 0;
    while i < mods.len()
        invariant
            i <= mods@.len(),
            mv == mods@.map_values(|w: Vec<char>| w@),
            forall|j: int| 0 <= j < i ==> mv[j] != m@,
        decreases mods@.len() - i,
    {
        assert(mv[i as int] == mods@[i as int]@);
        if eq_lit(mods[i].as_slice(), m) {
            return true;
        }
        i += 1;
    }
    false
}

/// Check for `[keys]` chords: `none`, or `Mod+…+Key` with modifiers Ctrl/Alt/Shift and a key
/// name (Space, Enter, Tab, Backspace, a–z, 0–9). Rejected because they would break normal
/// typing: a letter or digit without Ctrl or Alt, Space/Enter/Backspace without a modifier, and
/// Esc in any form.
pub fn is_chord(s: &str) -> (r: bool)
    ensures
        r == spec_is_chord(s@),
{
    let cs = chars_of(s);
    let none = chars_of("none");
    if chars_eq_ignore_case(cs.as_slice(), none.as_slice()) {
        return true;
    }
    let parts = chord_parts_of(s);
    let ghost pv = parts@.map_values(|w: Vec<char>| w@);
    let np = parts.len();
    let key = &parts[np - 1];
    assert(pv[np - 1] == key@);
    let mut mods: Vec<Vec<char>> = Vec::new();
    let mut i: usize = 0;
    let mut all_mods = true;
    while i < np - 1
        invariant
            i <= np - 1,
            np == parts@.len(),
            np >= 1,
            pv == parts@.map_values(|w: Vec<char>| w@),
            mods@.len() == i,
            forall|k: int| 0 <= k < i ==> #[trigger] mods@[k]@ == pv[k],
            all_mods == (forall|j: int| 0 <= j < i ==> is_mod_name(#[trigger] pv[j])),
        decreases np - 1 - i,
    {
        assert(pv[i as int] == parts@[i as int]@);
        let m = parts[i].as_slice();
        if !(eq_lit(m, "ctrl") || eq_lit(m, "alt") || eq_lit(m, "shift")) {
            all_mods = false;
        }
        mods.push(copy_vec(&parts[i]));
        i += 1;
    }
    assert(mods@.map_values(|w: Vec<char>| w@) =~= pv.drop_last());
    if !all_mods {
        proof {
            let j = choose|j: int| 0 <= j < np - 1 && !is_mod_name(#[trigger] pv[j]);
            assert(pv.drop_last()[j] == pv[j]);
        }
        return false;
    }
    let k = key.as_slice();
    if eq_lit(k, "tab") {
        true
    } else if eq_lit(k, "space") || eq_lit(k, "enter") || eq_lit(k, "backspace") {
        mods.len() > 0
    } else if k.len() == 1 && (('A' <= k[0] && k[0] <= 'Z') || ('a' <= k[0] && k[0] <= 'z') || (
    '0' <= k[0] && k[0] <= '9')) {
        has_part_in(mods.as_slice(), "ctrl") || has_part_in(mods.as_slice(), "alt")
    } else {
        false
    }
}

fn copy_vec(v: &Vec<char>) -> (r: Vec<char>)
    ensures
        r@ == v@,
{
    let mut r: Vec<char> = Vec::new();
    let mut i: usize = 0;
    while i < v.len()
        invariant
            i <= v@.len(),
            r@ =~= v@.take(i as int),
        decreases v@.len() - i,
    {
        r.push(v[i]);
        i += 1;
    }
    assert(v@.take(v@.len() as int) =~= v@);
    r
}

/// Why a shortcut cannot be used: Windows, or nearly every app, already uses it.
#[derive(Clone, Copy, Debug, PartialEq, Eq)]
pub struct Reserved {
    /// English reason, completing "This shortcut is used …".
    pub en: &'static str,
    /// Arabic reason, completing «هذا الاختصار يستخدمه …».
    pub ar: &'static str,
}

/// Modifier `m` is among `mods` (Control counts as Ctrl).
pub open spec fn has_mod(mods: Seq<Seq<char>>, m: Seq<char>) -> bool {
    exists|i: int|
        0 <= i < mods.len() && (#[trigger] mods[i] == m || (m == "ctrl"@ && mods[i] == "control"@))
}

/// The reason a Ctrl+key shortcut is taken, by key.
pub open spec fn ctrl_key_reason(k: Seq<char>) -> Option<int> {
    if false {
        None
    } else if k == "c"@ {
        Some(18int)
    } else if k == "v"@ {
        Some(19int)
    } else if k == "x"@ {
        Some(20int)
    } else if k == "z"@ {
        Some(21int)
    } else if k == "y"@ {
        Some(22int)
    } else if k == "a"@ {
        Some(23int)
    } else if k == "s"@ {
        Some(24int)
    } else if k == "p"@ {
        Some(25int)
    } else if k == "f"@ {
        Some(26int)
    } else if k == "n"@ {
        Some(27int)
    } else if k == "o"@ {
        Some(28int)
    } else if k == "w"@ {
        Some(29int)
    } else if k == "t"@ {
        Some(30int)
    } else if k == "r"@ {
        Some(31int)
    } else if k == "b"@ {
        Some(32int)
    } else if k == "i"@ {
        Some(33int)
    } else if k == "u"@ {
        Some(34int)
    } else if k == "k"@ {
        Some(35int)
    } else if k == "l"@ {
        Some(36int)
    } else if k == "h"@ {
        Some(37int)
    } else if k == "d"@ {
        Some(38int)
    } else if k == "e"@ {
        Some(39int)
    } else if k == "g"@ {
        Some(40int)
    } else if k == "j"@ {
        Some(41int)
    } else if k == "q"@ {
        Some(42int)
    } else if k == "tab"@ {
        Some(43int)
    } else if k == "backspace"@ {
        Some(44int)
    } else {
        None
    }
}

/// Which reason (by number) makes `chord` unusable, if any.
pub open spec fn reserved_index(chord: Seq<char>) -> Option<int> {
    let parts = chord_parts(chord);
    let key = parts.last();
    let mods = parts.drop_last();
    let ctrl = has_mod(mods, "ctrl"@);
    let alt = has_mod(mods, "alt"@);
    let shift = has_mod(mods, "shift"@);
    let win = has_mod(mods, "win"@) || has_mod(mods, "windows"@);
    if win {
        if key == "s"@ && shift {
            Some(0)
        } else if key == "space"@ {
            Some(1)
        } else if key == "v"@ {
            Some(2)
        } else if key == "l"@ {
            Some(3)
        } else if key == "d"@ {
            Some(4)
        } else if key == "e"@ {
            Some(5)
        } else if key == "tab"@ {
            Some(6)
        } else {
            Some(7)
        }
    } else if alt && key == "tab"@ {
        Some(8)
    } else if !ctrl && alt && !shift && key == "f4"@ {
        Some(9)
    } else if !ctrl && alt && !shift && key == "space"@ {
        Some(10)
    } else if !ctrl && alt && !shift && key == "enter"@ {
        Some(11)
    } else if ctrl && !alt && !shift && key == "space"@ {
        Some(12)
    } else if ctrl && !alt && shift && key == "z"@ {
        Some(13)
    } else if ctrl && !alt && shift && key == "t"@ {
        Some(14)
    } else if ctrl && !alt && shift && key == "n"@ {
        Some(15)
    } else if ctrl && !alt && shift && key == "tab"@ {
        Some(16)
    } else if ctrl && !alt && shift && key == "s"@ {
        Some(17)
    } else if ctrl && !alt && !shift {
        ctrl_key_reason(key)
    } else {
        None
    }
}

/// The English and Arabic text of reason `i`.
pub open spec fn reason_text(i: int) -> (Seq<char>, Seq<char>) {
    if i == 0 {
        ("by Windows to take a screenshot (Win+Shift+S)"@, "ويندوز لالتقاط صورة للشاشة"@)
    } else if i == 1 {
        ("by Windows to switch keyboards (Win+Space)"@, "ويندوز للتبديل بين لوحات المفاتيح"@)
    } else if i == 2 {
        ("by Windows for the clipboard history (Win+V)"@, "ويندوز لسجلّ الحافظة"@)
    } else if i == 3 {
        ("by Windows to lock the PC (Win+L)"@, "ويندوز لقفل الجهاز"@)
    } else if i == 4 {
        ("by Windows to show the desktop (Win+D)"@, "ويندوز لإظهار سطح المكتب"@)
    } else if i == 5 {
        ("by Windows to open File Explorer (Win+E)"@, "ويندوز لفتح مستكشف الملفات"@)
    } else if i == 6 {
        ("by Windows for Task View (Win+Tab)"@, "ويندوز لعرض المهام"@)
    } else if i == 7 {
        ("by Windows: Win shortcuts belong to Windows"@, "ويندوز: اختصارات مفتاح Win محجوزة له"@)
    } else if i == 8 {
        ("by Windows to switch between windows (Alt+Tab)"@, "ويندوز للتنقّل بين النوافذ"@)
    } else if i == 9 {
        ("by Windows to close the app (Alt+F4)"@, "ويندوز لإغلاق البرنامج"@)
    } else if i == 10 {
        ("by Windows for the window menu (Alt+Space)"@, "ويندوز لقائمة النافذة"@)
    } else if i == 11 {
        ("by many apps for full screen or properties (Alt+Enter)"@, "برامج كثيرة لملء الشاشة أو الخصائص"@)
    } else if i == 12 {
        ("for Type3arabi's own Arabic/Latin switch and by other input methods (Ctrl+Space)"@, "«اكتب عربي» نفسه وطرق إدخال أخرى للتبديل بين العربي واللاتيني"@)
    } else if i == 13 {
        ("by apps to redo (Ctrl+Shift+Z)"@, "البرامج للإعادة"@)
    } else if i == 14 {
        ("by browsers to reopen a closed tab (Ctrl+Shift+T)"@, "المتصفحات لإعادة فتح تبويب مغلق"@)
    } else if i == 15 {
        ("by browsers and File Explorer for a new private window or folder (Ctrl+Shift+N)"@, "المتصفحات ومستكشف الملفات لنافذة خاصة أو مجلد جديد"@)
    } else if i == 16 {
        ("by apps to go to the previous tab (Ctrl+Shift+Tab)"@, "البرامج للانتقال إلى التبويب السابق"@)
    } else if i == 17 {
        ("by apps to save as (Ctrl+Shift+S)"@, "البرامج للحفظ باسم"@)
    } else if i == 18 {
        ("by Windows to copy (Ctrl+C)"@, "ويندوز للنسخ"@)
    } else if i == 19 {
        ("by Windows to paste (Ctrl+V)"@, "ويندوز للّصق"@)
    } else if i == 20 {
        ("by Windows to cut (Ctrl+X)"@, "ويندوز للقصّ"@)
    } else if i == 21 {
        ("by Windows to undo (Ctrl+Z)"@, "ويندوز للتراجع"@)
    } else if i == 22 {
        ("by apps to redo (Ctrl+Y)"@, "البرامج للإعادة"@)
    } else if i == 23 {
        ("by Windows to select all (Ctrl+A)"@, "ويندوز لتحديد الكل"@)
    } else if i == 24 {
        ("by apps to save (Ctrl+S)"@, "البرامج للحفظ"@)
    } else if i == 25 {
        ("by apps to print (Ctrl+P)"@, "البرامج للطباعة"@)
    } else if i == 26 {
        ("by apps to find (Ctrl+F)"@, "البرامج للبحث"@)
    } else if i == 27 {
        ("by apps for a new document or window (Ctrl+N)"@, "البرامج لمستند أو نافذة جديدة"@)
    } else if i == 28 {
        ("by apps to open a file (Ctrl+O)"@, "البرامج لفتح ملف"@)
    } else if i == 29 {
        ("by apps to close a tab or window (Ctrl+W)"@, "البرامج لإغلاق تبويب أو نافذة"@)
    } else if i == 30 {
        ("by browsers for a new tab (Ctrl+T)"@, "المتصفحات لتبويب جديد"@)
    } else if i == 31 {
        ("by browsers to reload (Ctrl+R)"@, "المتصفحات لإعادة التحميل"@)
    } else if i == 32 {
        ("by editors for bold (Ctrl+B)"@, "المحرّرات للخط العريض"@)
    } else if i == 33 {
        ("by editors for italic (Ctrl+I)"@, "المحرّرات للخط المائل"@)
    } else if i == 34 {
        ("by editors for underline (Ctrl+U)"@, "المحرّرات لوضع خط تحت النص"@)
    } else if i == 35 {
        ("by apps to insert a link (Ctrl+K)"@, "البرامج لإدراج رابط"@)
    } else if i == 36 {
        ("by browsers for the address bar (Ctrl+L)"@, "المتصفحات لشريط العنوان"@)
    } else if i == 37 {
        ("by apps for history or replace (Ctrl+H)"@, "البرامج للسجلّ أو الاستبدال"@)
    } else if i == 38 {
        ("by browsers to bookmark a page (Ctrl+D)"@, "المتصفحات لإضافة إشارة مرجعية"@)
    } else if i == 39 {
        ("by apps to search or center text (Ctrl+E)"@, "البرامج للبحث أو توسيط النص"@)
    } else if i == 40 {
        ("by apps to find next (Ctrl+G)"@, "البرامج للبحث عن التالي"@)
    } else if i == 41 {
        ("by browsers for downloads (Ctrl+J)"@, "المتصفحات للتنزيلات"@)
    } else if i == 42 {
        ("by apps to quit (Ctrl+Q)"@, "البرامج للخروج"@)
    } else if i == 43 {
        ("by apps to go to the next tab (Ctrl+Tab)"@, "البرامج للانتقال إلى التبويب التالي"@)
    } else {
        ("by Windows to delete the previous word (Ctrl+Backspace)"@, "ويندوز لحذف الكلمة السابقة"@)
    }
}

fn reason(i: usize) -> (r: Reserved)
    ensures
        (r.en@, r.ar@) == reason_text(i as int),
{
    match i {
        0 => Reserved { en: "by Windows to take a screenshot (Win+Shift+S)", ar: "ويندوز لالتقاط صورة للشاشة" },
        1 => Reserved { en: "by Windows to switch keyboards (Win+Space)", ar: "ويندوز للتبديل بين لوحات المفاتيح" },
        2 => Reserved { en: "by Windows for the clipboard history (Win+V)", ar: "ويندوز لسجلّ الحافظة" },
        3 => Reserved { en: "by Windows to lock the PC (Win+L)", ar: "ويندوز لقفل الجهاز" },
        4 => Reserved { en: "by Windows to show the desktop (Win+D)", ar: "ويندوز لإظهار سطح المكتب" },
        5 => Reserved { en: "by Windows to open File Explorer (Win+E)", ar: "ويندوز لفتح مستكشف الملفات" },
        6 => Reserved { en: "by Windows for Task View (Win+Tab)", ar: "ويندوز لعرض المهام" },
        7 => Reserved { en: "by Windows: Win shortcuts belong to Windows", ar: "ويندوز: اختصارات مفتاح Win محجوزة له" },
        8 => Reserved { en: "by Windows to switch between windows (Alt+Tab)", ar: "ويندوز للتنقّل بين النوافذ" },
        9 => Reserved { en: "by Windows to close the app (Alt+F4)", ar: "ويندوز لإغلاق البرنامج" },
        10 => Reserved { en: "by Windows for the window menu (Alt+Space)", ar: "ويندوز لقائمة النافذة" },
        11 => Reserved { en: "by many apps for full screen or properties (Alt+Enter)", ar: "برامج كثيرة لملء الشاشة أو الخصائص" },
        12 => Reserved { en: "for Type3arabi's own Arabic/Latin switch and by other input methods (Ctrl+Space)", ar: "«اكتب عربي» نفسه وطرق إدخال أخرى للتبديل بين العربي واللاتيني" },
        13 => Reserved { en: "by apps to redo (Ctrl+Shift+Z)", ar: "البرامج للإعادة" },
        14 => Reserved { en: "by browsers to reopen a closed tab (Ctrl+Shift+T)", ar: "المتصفحات لإعادة فتح تبويب مغلق" },
        15 => Reserved { en: "by browsers and File Explorer for a new private window or folder (Ctrl+Shift+N)", ar: "المتصفحات ومستكشف الملفات لنافذة خاصة أو مجلد جديد" },
        16 => Reserved { en: "by apps to go to the previous tab (Ctrl+Shift+Tab)", ar: "البرامج للانتقال إلى التبويب السابق" },
        17 => Reserved { en: "by apps to save as (Ctrl+Shift+S)", ar: "البرامج للحفظ باسم" },
        18 => Reserved { en: "by Windows to copy (Ctrl+C)", ar: "ويندوز للنسخ" },
        19 => Reserved { en: "by Windows to paste (Ctrl+V)", ar: "ويندوز للّصق" },
        20 => Reserved { en: "by Windows to cut (Ctrl+X)", ar: "ويندوز للقصّ" },
        21 => Reserved { en: "by Windows to undo (Ctrl+Z)", ar: "ويندوز للتراجع" },
        22 => Reserved { en: "by apps to redo (Ctrl+Y)", ar: "البرامج للإعادة" },
        23 => Reserved { en: "by Windows to select all (Ctrl+A)", ar: "ويندوز لتحديد الكل" },
        24 => Reserved { en: "by apps to save (Ctrl+S)", ar: "البرامج للحفظ" },
        25 => Reserved { en: "by apps to print (Ctrl+P)", ar: "البرامج للطباعة" },
        26 => Reserved { en: "by apps to find (Ctrl+F)", ar: "البرامج للبحث" },
        27 => Reserved { en: "by apps for a new document or window (Ctrl+N)", ar: "البرامج لمستند أو نافذة جديدة" },
        28 => Reserved { en: "by apps to open a file (Ctrl+O)", ar: "البرامج لفتح ملف" },
        29 => Reserved { en: "by apps to close a tab or window (Ctrl+W)", ar: "البرامج لإغلاق تبويب أو نافذة" },
        30 => Reserved { en: "by browsers for a new tab (Ctrl+T)", ar: "المتصفحات لتبويب جديد" },
        31 => Reserved { en: "by browsers to reload (Ctrl+R)", ar: "المتصفحات لإعادة التحميل" },
        32 => Reserved { en: "by editors for bold (Ctrl+B)", ar: "المحرّرات للخط العريض" },
        33 => Reserved { en: "by editors for italic (Ctrl+I)", ar: "المحرّرات للخط المائل" },
        34 => Reserved { en: "by editors for underline (Ctrl+U)", ar: "المحرّرات لوضع خط تحت النص" },
        35 => Reserved { en: "by apps to insert a link (Ctrl+K)", ar: "البرامج لإدراج رابط" },
        36 => Reserved { en: "by browsers for the address bar (Ctrl+L)", ar: "المتصفحات لشريط العنوان" },
        37 => Reserved { en: "by apps for history or replace (Ctrl+H)", ar: "البرامج للسجلّ أو الاستبدال" },
        38 => Reserved { en: "by browsers to bookmark a page (Ctrl+D)", ar: "المتصفحات لإضافة إشارة مرجعية" },
        39 => Reserved { en: "by apps to search or center text (Ctrl+E)", ar: "البرامج للبحث أو توسيط النص" },
        40 => Reserved { en: "by apps to find next (Ctrl+G)", ar: "البرامج للبحث عن التالي" },
        41 => Reserved { en: "by browsers for downloads (Ctrl+J)", ar: "المتصفحات للتنزيلات" },
        42 => Reserved { en: "by apps to quit (Ctrl+Q)", ar: "البرامج للخروج" },
        43 => Reserved { en: "by apps to go to the next tab (Ctrl+Tab)", ar: "البرامج للانتقال إلى التبويب التالي" },
        _ => Reserved { en: "by Windows to delete the previous word (Ctrl+Backspace)", ar: "ويندوز لحذف الكلمة السابقة" },
    }
}

fn has_mod_in(mods: &[Vec<char>], m: &str) -> (r: bool)
    ensures
        r == has_mod(mods@.map_values(|w: Vec<char>| w@), m@),
{
    let ghost mv = mods@.map_values(|w: Vec<char>| w@);
    let is_ctrl = eq_lit(chars_of(m).as_slice(), "ctrl");
    let mut i: usize = 0;
    while i < mods.len()
        invariant
            i <= mods@.len(),
            mv == mods@.map_values(|w: Vec<char>| w@),
            is_ctrl == (m@ == "ctrl"@),
            forall|j: int| 0 <= j < i ==> !(#[trigger] mv[j] == m@ || (m@ == "ctrl"@ && mv[j] == "control"@)),
        decreases mods@.len() - i,
    {
        assert(mv[i as int] == mods@[i as int]@);
        let x = mods[i].as_slice();
        if eq_lit(x, m) || (is_ctrl && eq_lit(x, "control")) {
            return true;
        }
        i += 1;
    }
    false
}

fn ctrl_key_reason_of(k: &[char]) -> (r: Option<usize>)
    ensures
        match r {
            Some(i) => ctrl_key_reason(k@) == Some(i as int),
            None => ctrl_key_reason(k@) is None,
        },
{
    if false {
        None
    } else if eq_lit(k, "c") {
        Some(18usize)
    } else if eq_lit(k, "v") {
        Some(19usize)
    } else if eq_lit(k, "x") {
        Some(20usize)
    } else if eq_lit(k, "z") {
        Some(21usize)
    } else if eq_lit(k, "y") {
        Some(22usize)
    } else if eq_lit(k, "a") {
        Some(23usize)
    } else if eq_lit(k, "s") {
        Some(24usize)
    } else if eq_lit(k, "p") {
        Some(25usize)
    } else if eq_lit(k, "f") {
        Some(26usize)
    } else if eq_lit(k, "n") {
        Some(27usize)
    } else if eq_lit(k, "o") {
        Some(28usize)
    } else if eq_lit(k, "w") {
        Some(29usize)
    } else if eq_lit(k, "t") {
        Some(30usize)
    } else if eq_lit(k, "r") {
        Some(31usize)
    } else if eq_lit(k, "b") {
        Some(32usize)
    } else if eq_lit(k, "i") {
        Some(33usize)
    } else if eq_lit(k, "u") {
        Some(34usize)
    } else if eq_lit(k, "k") {
        Some(35usize)
    } else if eq_lit(k, "l") {
        Some(36usize)
    } else if eq_lit(k, "h") {
        Some(37usize)
    } else if eq_lit(k, "d") {
        Some(38usize)
    } else if eq_lit(k, "e") {
        Some(39usize)
    } else if eq_lit(k, "g") {
        Some(40usize)
    } else if eq_lit(k, "j") {
        Some(41usize)
    } else if eq_lit(k, "q") {
        Some(42usize)
    } else if eq_lit(k, "tab") {
        Some(43usize)
    } else if eq_lit(k, "backspace") {
        Some(44usize)
    } else {
        None
    }
}

/// Shortcuts refused for Type3arabi, with the reason: the global hotkey is registered
/// system-wide, so a copy of Ctrl+C would break copying everywhere; the typing shortcuts act
/// while a word is being typed and would hide the app's own shortcut. `chord` is written like
/// `Ctrl+Shift+T` (modifiers Ctrl, Alt, Shift, Win in any order and case).
pub fn reserved_shortcut(chord: &str) -> (r: Option<Reserved>)
    ensures
        match r {
            Some(x) => reserved_index(chord@) matches Some(i) && reason_text(i) == (x.en@, x.ar@),
            None => reserved_index(chord@) is None,
        },
{
    let parts = chord_parts_of(chord);
    let ghost pv = parts@.map_values(|w: Vec<char>| w@);
    let np = parts.len();
    let key = parts[np - 1].as_slice();
    assert(pv[np - 1] == key@);
    let mut mods: Vec<Vec<char>> = Vec::new();
    let mut i: usize = 0;
    while i < np - 1
        invariant
            i <= np - 1,
            np == parts@.len(),
            np >= 1,
            pv == parts@.map_values(|w: Vec<char>| w@),
            mods@.len() == i,
            forall|k: int| 0 <= k < i ==> #[trigger] mods@[k]@ == pv[k],
        decreases np - 1 - i,
    {
        assert(pv[i as int] == parts@[i as int]@);
        mods.push(copy_vec(&parts[i]));
        i += 1;
    }
    assert(mods@.map_values(|w: Vec<char>| w@) =~= pv.drop_last());
    let ms = mods.as_slice();
    let ctrl = has_mod_in(ms, "ctrl");
    let alt = has_mod_in(ms, "alt");
    let shift = has_mod_in(ms, "shift");
    let win = has_mod_in(ms, "win") || has_mod_in(ms, "windows");
    let idx: Option<usize> = if win {
        if eq_lit(key, "s") && shift {
            Some(0)
        } else if eq_lit(key, "space") {
            Some(1)
        } else if eq_lit(key, "v") {
            Some(2)
        } else if eq_lit(key, "l") {
            Some(3)
        } else if eq_lit(key, "d") {
            Some(4)
        } else if eq_lit(key, "e") {
            Some(5)
        } else if eq_lit(key, "tab") {
            Some(6)
        } else {
            Some(7)
        }
    } else if alt && eq_lit(key, "tab") {
        Some(8)
    } else if !ctrl && alt && !shift && eq_lit(key, "f4") {
        Some(9)
    } else if !ctrl && alt && !shift && eq_lit(key, "space") {
        Some(10)
    } else if !ctrl && alt && !shift && eq_lit(key, "enter") {
        Some(11)
    } else if ctrl && !alt && !shift && eq_lit(key, "space") {
        Some(12)
    } else if ctrl && !alt && shift && eq_lit(key, "z") {
        Some(13)
    } else if ctrl && !alt && shift && eq_lit(key, "t") {
        Some(14)
    } else if ctrl && !alt && shift && eq_lit(key, "n") {
        Some(15)
    } else if ctrl && !alt && shift && eq_lit(key, "tab") {
        Some(16)
    } else if ctrl && !alt && shift && eq_lit(key, "s") {
        Some(17)
    } else if ctrl && !alt && !shift {
        ctrl_key_reason_of(key)
    } else {
        None
    };
    match idx {
        Some(i) => Some(reason(i)),
        None => None,
    }
}

// ---------------------------------------------------------------------------------------------
// The typed configuration.

/// Typed configuration with the defaults of `config/config.default.toml`.
#[derive(Clone, Debug, PartialEq)]
pub struct Config {
    pub schema: i64,
    pub mode_toggle: String,
    pub mode_scope: String,
    pub global_hotkey_enabled: bool,
    pub global_hotkey: String,
    pub latin_layout: String,
    pub inline_preview: String,
    pub candidates_per_page: i64,
    pub predictive_completions: bool,
    pub article_joining: bool,
    pub reedit_backspace: bool,
    pub commit_on_focus_loss: String,
    pub latin_in_url_email: bool,
    pub dialect_profile: String,
    pub seed_from_region: bool,
    pub allah_form: String,
    pub adverbial_tanween: bool,
    pub tanween_style: String,
    pub hamza: String,
    pub vowel_harakat: String,
    pub arabic_punctuation: bool,
    pub numerals: String,
    pub learning_enabled: bool,
    pub sticky_last_choice: bool,
    pub use_surrounding_text: bool,
    pub theme: String,
    pub font_family: String,
    pub font_size: i64,
    pub footer_hints: String,
    pub show_dialect_badge: bool,
    pub excluded_apps: Vec<String>,
    pub rtl_assist: bool,
    pub rtl_assist_classes: Vec<String>,
    /// `[keys]` — in-composition shortcuts. Chord strings like `"Shift+Space"`, or `"none"`.
    pub key_commit_latin: String,
    pub key_open_tashkeel: String,
    pub key_commit_harakat: String,
}

/// A configuration as plain values.
pub struct ConfigView {
    pub schema: i64,
    pub mode_toggle: Seq<char>,
    pub mode_scope: Seq<char>,
    pub global_hotkey_enabled: bool,
    pub global_hotkey: Seq<char>,
    pub latin_layout: Seq<char>,
    pub inline_preview: Seq<char>,
    pub candidates_per_page: i64,
    pub predictive_completions: bool,
    pub article_joining: bool,
    pub reedit_backspace: bool,
    pub commit_on_focus_loss: Seq<char>,
    pub latin_in_url_email: bool,
    pub dialect_profile: Seq<char>,
    pub seed_from_region: bool,
    pub allah_form: Seq<char>,
    pub adverbial_tanween: bool,
    pub tanween_style: Seq<char>,
    pub hamza: Seq<char>,
    pub vowel_harakat: Seq<char>,
    pub arabic_punctuation: bool,
    pub numerals: Seq<char>,
    pub learning_enabled: bool,
    pub sticky_last_choice: bool,
    pub use_surrounding_text: bool,
    pub theme: Seq<char>,
    pub font_family: Seq<char>,
    pub font_size: i64,
    pub footer_hints: Seq<char>,
    pub show_dialect_badge: bool,
    pub excluded_apps: Seq<Seq<char>>,
    pub rtl_assist: bool,
    pub rtl_assist_classes: Seq<Seq<char>>,
    pub key_commit_latin: Seq<char>,
    pub key_open_tashkeel: Seq<char>,
    pub key_commit_harakat: Seq<char>,
}


impl Config {
    pub open spec fn view(&self) -> ConfigView {
        ConfigView {
            schema: self.schema,
            mode_toggle: self.mode_toggle@,
            mode_scope: self.mode_scope@,
            global_hotkey_enabled: self.global_hotkey_enabled,
            global_hotkey: self.global_hotkey@,
            latin_layout: self.latin_layout@,
            inline_preview: self.inline_preview@,
            candidates_per_page: self.candidates_per_page,
            predictive_completions: self.predictive_completions,
            article_joining: self.article_joining,
            reedit_backspace: self.reedit_backspace,
            commit_on_focus_loss: self.commit_on_focus_loss@,
            latin_in_url_email: self.latin_in_url_email,
            dialect_profile: self.dialect_profile@,
            seed_from_region: self.seed_from_region,
            allah_form: self.allah_form@,
            adverbial_tanween: self.adverbial_tanween,
            tanween_style: self.tanween_style@,
            hamza: self.hamza@,
            vowel_harakat: self.vowel_harakat@,
            arabic_punctuation: self.arabic_punctuation,
            numerals: self.numerals@,
            learning_enabled: self.learning_enabled,
            sticky_last_choice: self.sticky_last_choice,
            use_surrounding_text: self.use_surrounding_text,
            theme: self.theme@,
            font_family: self.font_family@,
            font_size: self.font_size,
            footer_hints: self.footer_hints@,
            show_dialect_badge: self.show_dialect_badge,
            excluded_apps: strings_view(self.excluded_apps@),
            rtl_assist: self.rtl_assist,
            rtl_assist_classes: strings_view(self.rtl_assist_classes@),
            key_commit_latin: self.key_commit_latin@,
            key_open_tashkeel: self.key_open_tashkeel@,
            key_commit_harakat: self.key_commit_harakat@,
        }
    }
}

/// The default configuration.
pub open spec fn default_view() -> ConfigView {
    ConfigView {
        schema: 1,
        mode_toggle: "Ctrl+Space"@,
        mode_scope: "global"@,
        global_hotkey_enabled: true,
        global_hotkey: "Ctrl+Alt+A"@,
        latin_layout: "auto"@,
        inline_preview: "arabic"@,
        candidates_per_page: 7,
        predictive_completions: true,
        article_joining: true,
        reedit_backspace: true,
        commit_on_focus_loss: "preview"@,
        latin_in_url_email: true,
        dialect_profile: "auto"@,
        seed_from_region: true,
        allah_form: "shadda"@,
        adverbial_tanween: true,
        tanween_style: "on_alif"@,
        hamza: "standard"@,
        vowel_harakat: "light"@,
        arabic_punctuation: true,
        numerals: "western"@,
        learning_enabled: true,
        sticky_last_choice: true,
        use_surrounding_text: true,
        theme: "system"@,
        font_family: "Segoe UI"@,
        font_size: 18,
        footer_hints: "auto"@,
        show_dialect_badge: true,
        excluded_apps: Seq::empty(),
        rtl_assist: false,
        rtl_assist_classes: seq!["Edit"@, "RichEdit20W"@, "RICHEDIT50W"@],
        key_commit_latin: "Shift+Space"@,
        key_open_tashkeel: "Tab"@,
        key_commit_harakat: "Ctrl+Enter"@,
    }
}

impl Default for Config {
    fn default() -> (c: Self)
        ensures
            c.view() == default_view(),
    {
        let mut rtl_default: Vec<String> = Vec::new();
        rtl_default.push("Edit".to_owned());
        rtl_default.push("RichEdit20W".to_owned());
        rtl_default.push("RICHEDIT50W".to_owned());
        let c = Config {
            schema: 1,
            mode_toggle: "Ctrl+Space".to_owned(),
            mode_scope: "global".to_owned(),
            global_hotkey_enabled: true,
            global_hotkey: "Ctrl+Alt+A".to_owned(),
            latin_layout: "auto".to_owned(),
            inline_preview: "arabic".to_owned(),
            candidates_per_page: 7,
            predictive_completions: true,
            article_joining: true,
            reedit_backspace: true,
            commit_on_focus_loss: "preview".to_owned(),
            latin_in_url_email: true,
            dialect_profile: "auto".to_owned(),
            seed_from_region: true,
            allah_form: "shadda".to_owned(),
            adverbial_tanween: true,
            tanween_style: "on_alif".to_owned(),
            hamza: "standard".to_owned(),
            vowel_harakat: "light".to_owned(),
            arabic_punctuation: true,
            numerals: "western".to_owned(),
            learning_enabled: true,
            sticky_last_choice: true,
            use_surrounding_text: true,
            theme: "system".to_owned(),
            font_family: "Segoe UI".to_owned(),
            font_size: 18,
            footer_hints: "auto".to_owned(),
            show_dialect_badge: true,
            excluded_apps: Vec::new(),
            rtl_assist: false,
            rtl_assist_classes: rtl_default,
            key_commit_latin: "Shift+Space".to_owned(),
            key_open_tashkeel: "Tab".to_owned(),
            key_commit_harakat: "Ctrl+Enter".to_owned(),
        };
        assert(c.view().rtl_assist_classes =~= default_view().rtl_assist_classes);
        assert(c.view().excluded_apps =~= default_view().excluded_apps);
        c
    }
}

/// The configuration key with number `i`, in field order.
pub open spec fn spec_key_name(i: int) -> Seq<char> {
    if i == 0 {
        "schema"@
    } else if i == 1 {
        "general.mode_toggle"@
    } else if i == 2 {
        "general.mode_scope"@
    } else if i == 3 {
        "general.global_hotkey_enabled"@
    } else if i == 4 {
        "general.global_hotkey"@
    } else if i == 5 {
        "typing.latin_layout"@
    } else if i == 6 {
        "typing.inline_preview"@
    } else if i == 7 {
        "typing.candidates_per_page"@
    } else if i == 8 {
        "typing.predictive_completions"@
    } else if i == 9 {
        "typing.article_joining"@
    } else if i == 10 {
        "typing.reedit_backspace"@
    } else if i == 11 {
        "typing.commit_on_focus_loss"@
    } else if i == 12 {
        "typing.latin_in_url_email"@
    } else if i == 13 {
        "dialect.profile"@
    } else if i == 14 {
        "dialect.seed_from_region"@
    } else if i == 15 {
        "style.allah_form"@
    } else if i == 16 {
        "style.adverbial_tanween"@
    } else if i == 17 {
        "style.tanween_style"@
    } else if i == 18 {
        "style.hamza"@
    } else if i == 19 {
        "style.vowel_harakat"@
    } else if i == 20 {
        "style.arabic_punctuation"@
    } else if i == 21 {
        "style.numerals"@
    } else if i == 22 {
        "learning.enabled"@
    } else if i == 23 {
        "learning.sticky_last_choice"@
    } else if i == 24 {
        "privacy.use_surrounding_text"@
    } else if i == 25 {
        "appearance.theme"@
    } else if i == 26 {
        "appearance.font_family"@
    } else if i == 27 {
        "appearance.font_size"@
    } else if i == 28 {
        "appearance.footer_hints"@
    } else if i == 29 {
        "appearance.show_dialect_badge"@
    } else if i == 30 {
        "apps.excluded"@
    } else if i == 31 {
        "apps.rtl_assist"@
    } else if i == 32 {
        "apps.rtl_assist_classes"@
    } else if i == 33 {
        "keys.commit_latin"@
    } else if i == 34 {
        "keys.open_tashkeel"@
    } else {
        "keys.commit_harakat"@
    }
}

fn key_name(i: usize) -> (r: &'static str)
    ensures
        r@ == spec_key_name(i as int),
{
    match i {
        0 => "schema",
        1 => "general.mode_toggle",
        2 => "general.mode_scope",
        3 => "general.global_hotkey_enabled",
        4 => "general.global_hotkey",
        5 => "typing.latin_layout",
        6 => "typing.inline_preview",
        7 => "typing.candidates_per_page",
        8 => "typing.predictive_completions",
        9 => "typing.article_joining",
        10 => "typing.reedit_backspace",
        11 => "typing.commit_on_focus_loss",
        12 => "typing.latin_in_url_email",
        13 => "dialect.profile",
        14 => "dialect.seed_from_region",
        15 => "style.allah_form",
        16 => "style.adverbial_tanween",
        17 => "style.tanween_style",
        18 => "style.hamza",
        19 => "style.vowel_harakat",
        20 => "style.arabic_punctuation",
        21 => "style.numerals",
        22 => "learning.enabled",
        23 => "learning.sticky_last_choice",
        24 => "privacy.use_surrounding_text",
        25 => "appearance.theme",
        26 => "appearance.font_family",
        27 => "appearance.font_size",
        28 => "appearance.footer_hints",
        29 => "appearance.show_dialect_badge",
        30 => "apps.excluded",
        31 => "apps.rtl_assist",
        32 => "apps.rtl_assist_classes",
        33 => "keys.commit_latin",
        34 => "keys.open_tashkeel",
        _ => "keys.commit_harakat",
    }
}

/// The number of the first configuration key at or after `i` named `k`.
pub open spec fn find_key(k: Seq<char>, i: int) -> Option<int>
    decreases 36 - i,
{
    if i >= 36 {
        None
    } else if k == spec_key_name(i) {
        Some(i)
    } else {
        find_key(k, i + 1)
    }
}

/// Key number `i` set to `v`, if `v` has the key's type and passes its check.
pub open spec fn apply_key(c: ConfigView, i: int, v: VView) -> Option<ConfigView> {
    if false {
        None
    } else if i == 0 {
        if v is Int {
            Some(ConfigView { schema: v->Int_0, ..c })
        } else {
            None
        }
    } else if i == 1 {
        if v is Str {
            Some(ConfigView { mode_toggle: v->Str_0, ..c })
        } else {
            None
        }
    } else if i == 2 {
        if v is Str {
            Some(ConfigView { mode_scope: v->Str_0, ..c })
        } else {
            None
        }
    } else if i == 3 {
        if v is Bool {
            Some(ConfigView { global_hotkey_enabled: v->Bool_0, ..c })
        } else {
            None
        }
    } else if i == 4 {
        if v is Str {
            Some(ConfigView { global_hotkey: v->Str_0, ..c })
        } else {
            None
        }
    } else if i == 5 {
        if v is Str {
            Some(ConfigView { latin_layout: v->Str_0, ..c })
        } else {
            None
        }
    } else if i == 6 {
        if v is Str {
            Some(ConfigView { inline_preview: v->Str_0, ..c })
        } else {
            None
        }
    } else if i == 7 {
        if v is Int && 5 <= v->Int_0 <= 9 {
            Some(ConfigView { candidates_per_page: v->Int_0, ..c })
        } else {
            None
        }
    } else if i == 8 {
        if v is Bool {
            Some(ConfigView { predictive_completions: v->Bool_0, ..c })
        } else {
            None
        }
    } else if i == 9 {
        if v is Bool {
            Some(ConfigView { article_joining: v->Bool_0, ..c })
        } else {
            None
        }
    } else if i == 10 {
        if v is Bool {
            Some(ConfigView { reedit_backspace: v->Bool_0, ..c })
        } else {
            None
        }
    } else if i == 11 {
        if v is Str {
            Some(ConfigView { commit_on_focus_loss: v->Str_0, ..c })
        } else {
            None
        }
    } else if i == 12 {
        if v is Bool {
            Some(ConfigView { latin_in_url_email: v->Bool_0, ..c })
        } else {
            None
        }
    } else if i == 13 {
        if v is Str {
            Some(ConfigView { dialect_profile: v->Str_0, ..c })
        } else {
            None
        }
    } else if i == 14 {
        if v is Bool {
            Some(ConfigView { seed_from_region: v->Bool_0, ..c })
        } else {
            None
        }
    } else if i == 15 {
        if v is Str && AllahForm::spec_parse(v->Str_0) is Some {
            Some(ConfigView { allah_form: v->Str_0, ..c })
        } else {
            None
        }
    } else if i == 16 {
        if v is Bool {
            Some(ConfigView { adverbial_tanween: v->Bool_0, ..c })
        } else {
            None
        }
    } else if i == 17 {
        if v is Str && TanweenStyle::spec_parse(v->Str_0) is Some {
            Some(ConfigView { tanween_style: v->Str_0, ..c })
        } else {
            None
        }
    } else if i == 18 {
        if v is Str {
            Some(ConfigView { hamza: v->Str_0, ..c })
        } else {
            None
        }
    } else if i == 19 {
        if v is Str {
            Some(ConfigView { vowel_harakat: v->Str_0, ..c })
        } else {
            None
        }
    } else if i == 20 {
        if v is Bool {
            Some(ConfigView { arabic_punctuation: v->Bool_0, ..c })
        } else {
            None
        }
    } else if i == 21 {
        if v is Str {
            Some(ConfigView { numerals: v->Str_0, ..c })
        } else {
            None
        }
    } else if i == 22 {
        if v is Bool {
            Some(ConfigView { learning_enabled: v->Bool_0, ..c })
        } else {
            None
        }
    } else if i == 23 {
        if v is Bool {
            Some(ConfigView { sticky_last_choice: v->Bool_0, ..c })
        } else {
            None
        }
    } else if i == 24 {
        if v is Bool {
            Some(ConfigView { use_surrounding_text: v->Bool_0, ..c })
        } else {
            None
        }
    } else if i == 25 {
        if v is Str {
            Some(ConfigView { theme: v->Str_0, ..c })
        } else {
            None
        }
    } else if i == 26 {
        if v is Str {
            Some(ConfigView { font_family: v->Str_0, ..c })
        } else {
            None
        }
    } else if i == 27 {
        if v is Int && 14 <= v->Int_0 <= 28 {
            Some(ConfigView { font_size: v->Int_0, ..c })
        } else {
            None
        }
    } else if i == 28 {
        if v is Str {
            Some(ConfigView { footer_hints: v->Str_0, ..c })
        } else {
            None
        }
    } else if i == 29 {
        if v is Bool {
            Some(ConfigView { show_dialect_badge: v->Bool_0, ..c })
        } else {
            None
        }
    } else if i == 30 {
        if v is List {
            Some(ConfigView { excluded_apps: v->List_0, ..c })
        } else {
            None
        }
    } else if i == 31 {
        if v is Bool {
            Some(ConfigView { rtl_assist: v->Bool_0, ..c })
        } else {
            None
        }
    } else if i == 32 {
        if v is List {
            Some(ConfigView { rtl_assist_classes: v->List_0, ..c })
        } else {
            None
        }
    } else if i == 33 {
        if v is Str && spec_is_chord(v->Str_0) {
            Some(ConfigView { key_commit_latin: v->Str_0, ..c })
        } else {
            None
        }
    } else if i == 34 {
        if v is Str && spec_is_chord(v->Str_0) {
            Some(ConfigView { key_open_tashkeel: v->Str_0, ..c })
        } else {
            None
        }
    } else if i == 35 {
        if v is Str && spec_is_chord(v->Str_0) {
            Some(ConfigView { key_commit_harakat: v->Str_0, ..c })
        } else {
            None
        }
    } else {
        None
    }
}

fn set_schema(c: &mut Config, v: Value) -> (ok: bool)
    ensures
        ok == apply_key(old(c).view(), 0, v@) is Some,
        ok ==> final(c).view() == apply_key(old(c).view(), 0, v@)->0,
        !ok ==> final(c).view() == old(c).view(),
{
    match v {
            Value::Int(x) => {
                c.schema = x;
                true
            },
            _ => false,
    }
}

fn set_mode_toggle(c: &mut Config, v: Value) -> (ok: bool)
    ensures
        ok == apply_key(old(c).view(), 1, v@) is Some,
        ok ==> final(c).view() == apply_key(old(c).view(), 1, v@)->0,
        !ok ==> final(c).view() == old(c).view(),
{
    match v {
            Value::Str(x) => {
                c.mode_toggle = x;
                true
            },
            _ => false,
    }
}

fn set_mode_scope(c: &mut Config, v: Value) -> (ok: bool)
    ensures
        ok == apply_key(old(c).view(), 2, v@) is Some,
        ok ==> final(c).view() == apply_key(old(c).view(), 2, v@)->0,
        !ok ==> final(c).view() == old(c).view(),
{
    match v {
            Value::Str(x) => {
                c.mode_scope = x;
                true
            },
            _ => false,
    }
}

fn set_global_hotkey_enabled(c: &mut Config, v: Value) -> (ok: bool)
    ensures
        ok == apply_key(old(c).view(), 3, v@) is Some,
        ok ==> final(c).view() == apply_key(old(c).view(), 3, v@)->0,
        !ok ==> final(c).view() == old(c).view(),
{
    match v {
            Value::Bool(x) => {
                c.global_hotkey_enabled = x;
                true
            },
            _ => false,
    }
}

fn set_global_hotkey(c: &mut Config, v: Value) -> (ok: bool)
    ensures
        ok == apply_key(old(c).view(), 4, v@) is Some,
        ok ==> final(c).view() == apply_key(old(c).view(), 4, v@)->0,
        !ok ==> final(c).view() == old(c).view(),
{
    match v {
            Value::Str(x) => {
                c.global_hotkey = x;
                true
            },
            _ => false,
    }
}

fn set_latin_layout(c: &mut Config, v: Value) -> (ok: bool)
    ensures
        ok == apply_key(old(c).view(), 5, v@) is Some,
        ok ==> final(c).view() == apply_key(old(c).view(), 5, v@)->0,
        !ok ==> final(c).view() == old(c).view(),
{
    match v {
            Value::Str(x) => {
                c.latin_layout = x;
                true
            },
            _ => false,
    }
}

fn set_inline_preview(c: &mut Config, v: Value) -> (ok: bool)
    ensures
        ok == apply_key(old(c).view(), 6, v@) is Some,
        ok ==> final(c).view() == apply_key(old(c).view(), 6, v@)->0,
        !ok ==> final(c).view() == old(c).view(),
{
    match v {
            Value::Str(x) => {
                c.inline_preview = x;
                true
            },
            _ => false,
    }
}

fn set_candidates_per_page(c: &mut Config, v: Value) -> (ok: bool)
    ensures
        ok == apply_key(old(c).view(), 7, v@) is Some,
        ok ==> final(c).view() == apply_key(old(c).view(), 7, v@)->0,
        !ok ==> final(c).view() == old(c).view(),
{
    match v {
            Value::Int(x) => if 5 <= x && x <= 9 {
                c.candidates_per_page = x;
                true
            } else {
                false
            },
            _ => false,
    }
}

fn set_predictive_completions(c: &mut Config, v: Value) -> (ok: bool)
    ensures
        ok == apply_key(old(c).view(), 8, v@) is Some,
        ok ==> final(c).view() == apply_key(old(c).view(), 8, v@)->0,
        !ok ==> final(c).view() == old(c).view(),
{
    match v {
            Value::Bool(x) => {
                c.predictive_completions = x;
                true
            },
            _ => false,
    }
}

fn set_article_joining(c: &mut Config, v: Value) -> (ok: bool)
    ensures
        ok == apply_key(old(c).view(), 9, v@) is Some,
        ok ==> final(c).view() == apply_key(old(c).view(), 9, v@)->0,
        !ok ==> final(c).view() == old(c).view(),
{
    match v {
            Value::Bool(x) => {
                c.article_joining = x;
                true
            },
            _ => false,
    }
}

fn set_reedit_backspace(c: &mut Config, v: Value) -> (ok: bool)
    ensures
        ok == apply_key(old(c).view(), 10, v@) is Some,
        ok ==> final(c).view() == apply_key(old(c).view(), 10, v@)->0,
        !ok ==> final(c).view() == old(c).view(),
{
    match v {
            Value::Bool(x) => {
                c.reedit_backspace = x;
                true
            },
            _ => false,
    }
}

fn set_commit_on_focus_loss(c: &mut Config, v: Value) -> (ok: bool)
    ensures
        ok == apply_key(old(c).view(), 11, v@) is Some,
        ok ==> final(c).view() == apply_key(old(c).view(), 11, v@)->0,
        !ok ==> final(c).view() == old(c).view(),
{
    match v {
            Value::Str(x) => {
                c.commit_on_focus_loss = x;
                true
            },
            _ => false,
    }
}

fn set_latin_in_url_email(c: &mut Config, v: Value) -> (ok: bool)
    ensures
        ok == apply_key(old(c).view(), 12, v@) is Some,
        ok ==> final(c).view() == apply_key(old(c).view(), 12, v@)->0,
        !ok ==> final(c).view() == old(c).view(),
{
    match v {
            Value::Bool(x) => {
                c.latin_in_url_email = x;
                true
            },
            _ => false,
    }
}

fn set_dialect_profile(c: &mut Config, v: Value) -> (ok: bool)
    ensures
        ok == apply_key(old(c).view(), 13, v@) is Some,
        ok ==> final(c).view() == apply_key(old(c).view(), 13, v@)->0,
        !ok ==> final(c).view() == old(c).view(),
{
    match v {
            Value::Str(x) => {
                c.dialect_profile = x;
                true
            },
            _ => false,
    }
}

fn set_seed_from_region(c: &mut Config, v: Value) -> (ok: bool)
    ensures
        ok == apply_key(old(c).view(), 14, v@) is Some,
        ok ==> final(c).view() == apply_key(old(c).view(), 14, v@)->0,
        !ok ==> final(c).view() == old(c).view(),
{
    match v {
            Value::Bool(x) => {
                c.seed_from_region = x;
                true
            },
            _ => false,
    }
}

fn set_allah_form(c: &mut Config, v: Value) -> (ok: bool)
    ensures
        ok == apply_key(old(c).view(), 15, v@) is Some,
        ok ==> final(c).view() == apply_key(old(c).view(), 15, v@)->0,
        !ok ==> final(c).view() == old(c).view(),
{
    match v {
            Value::Str(x) => if AllahForm::parse(x.as_str()).is_some() {
                c.allah_form = x;
                true
            } else {
                false
            },
            _ => false,
    }
}

fn set_adverbial_tanween(c: &mut Config, v: Value) -> (ok: bool)
    ensures
        ok == apply_key(old(c).view(), 16, v@) is Some,
        ok ==> final(c).view() == apply_key(old(c).view(), 16, v@)->0,
        !ok ==> final(c).view() == old(c).view(),
{
    match v {
            Value::Bool(x) => {
                c.adverbial_tanween = x;
                true
            },
            _ => false,
    }
}

fn set_tanween_style(c: &mut Config, v: Value) -> (ok: bool)
    ensures
        ok == apply_key(old(c).view(), 17, v@) is Some,
        ok ==> final(c).view() == apply_key(old(c).view(), 17, v@)->0,
        !ok ==> final(c).view() == old(c).view(),
{
    match v {
            Value::Str(x) => if TanweenStyle::parse(x.as_str()).is_some() {
                c.tanween_style = x;
                true
            } else {
                false
            },
            _ => false,
    }
}

fn set_hamza(c: &mut Config, v: Value) -> (ok: bool)
    ensures
        ok == apply_key(old(c).view(), 18, v@) is Some,
        ok ==> final(c).view() == apply_key(old(c).view(), 18, v@)->0,
        !ok ==> final(c).view() == old(c).view(),
{
    match v {
            Value::Str(x) => {
                c.hamza = x;
                true
            },
            _ => false,
    }
}

fn set_vowel_harakat(c: &mut Config, v: Value) -> (ok: bool)
    ensures
        ok == apply_key(old(c).view(), 19, v@) is Some,
        ok ==> final(c).view() == apply_key(old(c).view(), 19, v@)->0,
        !ok ==> final(c).view() == old(c).view(),
{
    match v {
            Value::Str(x) => {
                c.vowel_harakat = x;
                true
            },
            _ => false,
    }
}

fn set_arabic_punctuation(c: &mut Config, v: Value) -> (ok: bool)
    ensures
        ok == apply_key(old(c).view(), 20, v@) is Some,
        ok ==> final(c).view() == apply_key(old(c).view(), 20, v@)->0,
        !ok ==> final(c).view() == old(c).view(),
{
    match v {
            Value::Bool(x) => {
                c.arabic_punctuation = x;
                true
            },
            _ => false,
    }
}

fn set_numerals(c: &mut Config, v: Value) -> (ok: bool)
    ensures
        ok == apply_key(old(c).view(), 21, v@) is Some,
        ok ==> final(c).view() == apply_key(old(c).view(), 21, v@)->0,
        !ok ==> final(c).view() == old(c).view(),
{
    match v {
            Value::Str(x) => {
                c.numerals = x;
                true
            },
            _ => false,
    }
}

fn set_learning_enabled(c: &mut Config, v: Value) -> (ok: bool)
    ensures
        ok == apply_key(old(c).view(), 22, v@) is Some,
        ok ==> final(c).view() == apply_key(old(c).view(), 22, v@)->0,
        !ok ==> final(c).view() == old(c).view(),
{
    match v {
            Value::Bool(x) => {
                c.learning_enabled = x;
                true
            },
            _ => false,
    }
}

fn set_sticky_last_choice(c: &mut Config, v: Value) -> (ok: bool)
    ensures
        ok == apply_key(old(c).view(), 23, v@) is Some,
        ok ==> final(c).view() == apply_key(old(c).view(), 23, v@)->0,
        !ok ==> final(c).view() == old(c).view(),
{
    match v {
            Value::Bool(x) => {
                c.sticky_last_choice = x;
                true
            },
            _ => false,
    }
}

fn set_use_surrounding_text(c: &mut Config, v: Value) -> (ok: bool)
    ensures
        ok == apply_key(old(c).view(), 24, v@) is Some,
        ok ==> final(c).view() == apply_key(old(c).view(), 24, v@)->0,
        !ok ==> final(c).view() == old(c).view(),
{
    match v {
            Value::Bool(x) => {
                c.use_surrounding_text = x;
                true
            },
            _ => false,
    }
}

fn set_theme(c: &mut Config, v: Value) -> (ok: bool)
    ensures
        ok == apply_key(old(c).view(), 25, v@) is Some,
        ok ==> final(c).view() == apply_key(old(c).view(), 25, v@)->0,
        !ok ==> final(c).view() == old(c).view(),
{
    match v {
            Value::Str(x) => {
                c.theme = x;
                true
            },
            _ => false,
    }
}

fn set_font_family(c: &mut Config, v: Value) -> (ok: bool)
    ensures
        ok == apply_key(old(c).view(), 26, v@) is Some,
        ok ==> final(c).view() == apply_key(old(c).view(), 26, v@)->0,
        !ok ==> final(c).view() == old(c).view(),
{
    match v {
            Value::Str(x) => {
                c.font_family = x;
                true
            },
            _ => false,
    }
}

fn set_font_size(c: &mut Config, v: Value) -> (ok: bool)
    ensures
        ok == apply_key(old(c).view(), 27, v@) is Some,
        ok ==> final(c).view() == apply_key(old(c).view(), 27, v@)->0,
        !ok ==> final(c).view() == old(c).view(),
{
    match v {
            Value::Int(x) => if 14 <= x && x <= 28 {
                c.font_size = x;
                true
            } else {
                false
            },
            _ => false,
    }
}

fn set_footer_hints(c: &mut Config, v: Value) -> (ok: bool)
    ensures
        ok == apply_key(old(c).view(), 28, v@) is Some,
        ok ==> final(c).view() == apply_key(old(c).view(), 28, v@)->0,
        !ok ==> final(c).view() == old(c).view(),
{
    match v {
            Value::Str(x) => {
                c.footer_hints = x;
                true
            },
            _ => false,
    }
}

fn set_show_dialect_badge(c: &mut Config, v: Value) -> (ok: bool)
    ensures
        ok == apply_key(old(c).view(), 29, v@) is Some,
        ok ==> final(c).view() == apply_key(old(c).view(), 29, v@)->0,
        !ok ==> final(c).view() == old(c).view(),
{
    match v {
            Value::Bool(x) => {
                c.show_dialect_badge = x;
                true
            },
            _ => false,
    }
}

fn set_excluded_apps(c: &mut Config, v: Value) -> (ok: bool)
    ensures
        ok == apply_key(old(c).view(), 30, v@) is Some,
        ok ==> final(c).view() == apply_key(old(c).view(), 30, v@)->0,
        !ok ==> final(c).view() == old(c).view(),
{
    match v {
            Value::List(x) => {
                c.excluded_apps = x;
                true
            },
            _ => false,
    }
}

fn set_rtl_assist(c: &mut Config, v: Value) -> (ok: bool)
    ensures
        ok == apply_key(old(c).view(), 31, v@) is Some,
        ok ==> final(c).view() == apply_key(old(c).view(), 31, v@)->0,
        !ok ==> final(c).view() == old(c).view(),
{
    match v {
            Value::Bool(x) => {
                c.rtl_assist = x;
                true
            },
            _ => false,
    }
}

fn set_rtl_assist_classes(c: &mut Config, v: Value) -> (ok: bool)
    ensures
        ok == apply_key(old(c).view(), 32, v@) is Some,
        ok ==> final(c).view() == apply_key(old(c).view(), 32, v@)->0,
        !ok ==> final(c).view() == old(c).view(),
{
    match v {
            Value::List(x) => {
                c.rtl_assist_classes = x;
                true
            },
            _ => false,
    }
}

fn set_key_commit_latin(c: &mut Config, v: Value) -> (ok: bool)
    ensures
        ok == apply_key(old(c).view(), 33, v@) is Some,
        ok ==> final(c).view() == apply_key(old(c).view(), 33, v@)->0,
        !ok ==> final(c).view() == old(c).view(),
{
    match v {
            Value::Str(x) => if is_chord(x.as_str()) {
                c.key_commit_latin = x;
                true
            } else {
                false
            },
            _ => false,
    }
}

fn set_key_open_tashkeel(c: &mut Config, v: Value) -> (ok: bool)
    ensures
        ok == apply_key(old(c).view(), 34, v@) is Some,
        ok ==> final(c).view() == apply_key(old(c).view(), 34, v@)->0,
        !ok ==> final(c).view() == old(c).view(),
{
    match v {
            Value::Str(x) => if is_chord(x.as_str()) {
                c.key_open_tashkeel = x;
                true
            } else {
                false
            },
            _ => false,
    }
}

fn set_key_commit_harakat(c: &mut Config, v: Value) -> (ok: bool)
    ensures
        ok == apply_key(old(c).view(), 35, v@) is Some,
        ok ==> final(c).view() == apply_key(old(c).view(), 35, v@)->0,
        !ok ==> final(c).view() == old(c).view(),
{
    match v {
            Value::Str(x) => if is_chord(x.as_str()) {
                c.key_commit_harakat = x;
                true
            } else {
                false
            },
            _ => false,
    }
}

fn apply_key_exec(c: &mut Config, i: usize, v: Value) -> (ok: bool)
    ensures
        ok == apply_key(old(c).view(), i as int, v@) is Some,
        ok ==> final(c).view() == apply_key(old(c).view(), i as int, v@)->0,
        !ok ==> final(c).view() == old(c).view(),
{
    match i {
        0 => set_schema(c, v),
        1 => set_mode_toggle(c, v),
        2 => set_mode_scope(c, v),
        3 => set_global_hotkey_enabled(c, v),
        4 => set_global_hotkey(c, v),
        5 => set_latin_layout(c, v),
        6 => set_inline_preview(c, v),
        7 => set_candidates_per_page(c, v),
        8 => set_predictive_completions(c, v),
        9 => set_article_joining(c, v),
        10 => set_reedit_backspace(c, v),
        11 => set_commit_on_focus_loss(c, v),
        12 => set_latin_in_url_email(c, v),
        13 => set_dialect_profile(c, v),
        14 => set_seed_from_region(c, v),
        15 => set_allah_form(c, v),
        16 => set_adverbial_tanween(c, v),
        17 => set_tanween_style(c, v),
        18 => set_hamza(c, v),
        19 => set_vowel_harakat(c, v),
        20 => set_arabic_punctuation(c, v),
        21 => set_numerals(c, v),
        22 => set_learning_enabled(c, v),
        23 => set_sticky_last_choice(c, v),
        24 => set_use_surrounding_text(c, v),
        25 => set_theme(c, v),
        26 => set_font_family(c, v),
        27 => set_font_size(c, v),
        28 => set_footer_hints(c, v),
        29 => set_show_dialect_badge(c, v),
        30 => set_excluded_apps(c, v),
        31 => set_rtl_assist(c, v),
        32 => set_rtl_assist_classes(c, v),
        33 => set_key_commit_latin(c, v),
        34 => set_key_open_tashkeel(c, v),
        35 => set_key_commit_harakat(c, v),
        _ => false,
    }
}

pub open spec fn warn_invalid(k: Seq<char>) -> Seq<char> {
    "invalid value for "@ + k + "; using default"@
}

/// The configuration and warnings after one `(key, value)` pair.
pub open spec fn config_step(
    c: ConfigView,
    w: Seq<Seq<char>>,
    k: Seq<char>,
    v: VView,
) -> (ConfigView, Seq<Seq<char>>) {
    match find_key(k, 0) {
        None => (c, w),
        Some(i) => match apply_key(c, i, v) {
            Some(c2) => (c2, w),
            None => (c, w.push(warn_invalid(k))),
        },
    }
}

pub open spec fn config_upto(
    c0: ConfigView,
    w0: Seq<Seq<char>>,
    pairs: Seq<(Seq<char>, VView)>,
    n: int,
) -> (ConfigView, Seq<Seq<char>>)
    decreases n,
{
    if n <= 0 {
        (c0, w0)
    } else {
        let (c, w) = config_upto(c0, w0, pairs, n - 1);
        config_step(c, w, pairs[n - 1].0, pairs[n - 1].1)
    }
}

/// The configuration `text` describes, and the warnings for what was skipped.
pub open spec fn spec_config(text: Seq<char>) -> (ConfigView, Seq<Seq<char>>) {
    let st = spec_parse_toml(text);
    config_upto(default_view(), st.warnings, st.pairs, st.pairs.len() as int)
}

pub open spec fn bool_text(b: bool) -> Seq<char> {
    if b {
        "true"@
    } else {
        "false"@
    }
}

/// `s` without double quotes.
pub open spec fn no_quotes(s: Seq<char>) -> Seq<char>
    decreases s.len(),
{
    if s.len() == 0 {
        Seq::empty()
    } else if s.last() == '"' {
        no_quotes(s.drop_last())
    } else {
        no_quotes(s.drop_last()).push(s.last())
    }
}

pub open spec fn quoted(s: Seq<char>) -> Seq<char> {
    seq!['"'] + no_quotes(s) + seq!['"']
}

pub open spec fn join_quoted(items: Seq<Seq<char>>) -> Seq<char>
    decreases items.len(),
{
    if items.len() == 0 {
        Seq::empty()
    } else if items.len() == 1 {
        quoted(items[0])
    } else {
        join_quoted(items.drop_last()) + ", "@ + quoted(items.last())
    }
}

pub open spec fn list_text(items: Seq<Seq<char>>) -> Seq<char> {
    seq!['['] + join_quoted(items) + seq![']']
}

/// Lines, each followed by a line break.
pub open spec fn join_lines(ls: Seq<Seq<char>>) -> Seq<char>
    decreases ls.len(),
{
    if ls.len() == 0 {
        Seq::empty()
    } else {
        join_lines(ls.drop_last()) + ls.last() + seq!['\n']
    }
}

/// The comment the written file starts with.
pub open spec fn header_line() -> Seq<char> {
    "# Type3arabi settings. Written by Type3arabi Settings."@
}

pub open spec fn indent_text(indented: bool) -> Seq<char> {
    if indented {
        "             "@
    } else {
        Seq::empty()
    }
}

/// A `key = value` line.
pub open spec fn pair_line(indented: bool, key: Seq<char>, value: Seq<char>) -> Seq<char> {
    indent_text(indented) + key + " = "@ + value
}

/// A `[name]` line.
pub open spec fn section_line(name: Seq<char>) -> Seq<char> {
    "             ["@ + name + "]"@
}

/// Line `i` of the written file of `c`.
pub open spec fn toml_line(c: ConfigView, i: int) -> Seq<char> {
    if i == 0 {
        header_line()
    } else if i == 1 {
        pair_line(true, "schema"@, int_text(c.schema as int))
    } else if i == 2 {
        Seq::empty()
    } else if i == 3 {
        section_line("general"@)
    } else if i == 4 {
        pair_line(false, "mode_toggle"@, quoted(c.mode_toggle))
    } else if i == 5 {
        pair_line(false, "mode_scope"@, quoted(c.mode_scope))
    } else if i == 6 {
        pair_line(false, "global_hotkey_enabled"@, bool_text(c.global_hotkey_enabled))
    } else if i == 7 {
        pair_line(false, "global_hotkey"@, quoted(c.global_hotkey))
    } else if i == 8 {
        Seq::empty()
    } else if i == 9 {
        section_line("typing"@)
    } else if i == 10 {
        pair_line(false, "latin_layout"@, quoted(c.latin_layout))
    } else if i == 11 {
        pair_line(false, "inline_preview"@, quoted(c.inline_preview))
    } else if i == 12 {
        pair_line(false, "candidates_per_page"@, int_text(c.candidates_per_page as int))
    } else if i == 13 {
        pair_line(true, "predictive_completions"@, bool_text(c.predictive_completions))
    } else if i == 14 {
        pair_line(false, "article_joining"@, bool_text(c.article_joining))
    } else if i == 15 {
        pair_line(false, "reedit_backspace"@, bool_text(c.reedit_backspace))
    } else if i == 16 {
        pair_line(true, "commit_on_focus_loss"@, quoted(c.commit_on_focus_loss))
    } else if i == 17 {
        pair_line(false, "latin_in_url_email"@, bool_text(c.latin_in_url_email))
    } else if i == 18 {
        Seq::empty()
    } else if i == 19 {
        section_line("dialect"@)
    } else if i == 20 {
        pair_line(false, "profile"@, quoted(c.dialect_profile))
    } else if i == 21 {
        pair_line(false, "seed_from_region"@, bool_text(c.seed_from_region))
    } else if i == 22 {
        Seq::empty()
    } else if i == 23 {
        section_line("style"@)
    } else if i == 24 {
        pair_line(false, "allah_form"@, quoted(c.allah_form))
    } else if i == 25 {
        pair_line(false, "adverbial_tanween"@, bool_text(c.adverbial_tanween))
    } else if i == 26 {
        pair_line(false, "tanween_style"@, quoted(c.tanween_style))
    } else if i == 27 {
        pair_line(false, "hamza"@, quoted(c.hamza))
    } else if i == 28 {
        pair_line(true, "vowel_harakat"@, quoted(c.vowel_harakat))
    } else if i == 29 {
        pair_line(false, "arabic_punctuation"@, bool_text(c.arabic_punctuation))
    } else if i == 30 {
        pair_line(false, "numerals"@, quoted(c.numerals))
    } else if i == 31 {
        Seq::empty()
    } else if i == 32 {
        section_line("learning"@)
    } else if i == 33 {
        pair_line(false, "enabled"@, bool_text(c.learning_enabled))
    } else if i == 34 {
        pair_line(false, "sticky_last_choice"@, bool_text(c.sticky_last_choice))
    } else if i == 35 {
        Seq::empty()
    } else if i == 36 {
        section_line("privacy"@)
    } else if i == 37 {
        pair_line(false, "use_surrounding_text"@, bool_text(c.use_surrounding_text))
    } else if i == 38 {
        Seq::empty()
    } else if i == 39 {
        section_line("appearance"@)
    } else if i == 40 {
        pair_line(false, "theme"@, quoted(c.theme))
    } else if i == 41 {
        pair_line(false, "font_family"@, quoted(c.font_family))
    } else if i == 42 {
        pair_line(false, "font_size"@, int_text(c.font_size as int))
    } else if i == 43 {
        pair_line(false, "footer_hints"@, quoted(c.footer_hints))
    } else if i == 44 {
        pair_line(true, "show_dialect_badge"@, bool_text(c.show_dialect_badge))
    } else if i == 45 {
        Seq::empty()
    } else if i == 46 {
        section_line("apps"@)
    } else if i == 47 {
        pair_line(false, "excluded"@, list_text(c.excluded_apps))
    } else if i == 48 {
        pair_line(false, "rtl_assist"@, bool_text(c.rtl_assist))
    } else if i == 49 {
        pair_line(false, "rtl_assist_classes"@, list_text(c.rtl_assist_classes))
    } else if i == 50 {
        Seq::empty()
    } else if i == 51 {
        section_line("keys"@)
    } else if i == 52 {
        pair_line(false, "commit_latin"@, quoted(c.key_commit_latin))
    } else if i == 53 {
        pair_line(false, "open_tashkeel"@, quoted(c.key_open_tashkeel))
    } else {
        pair_line(false, "commit_harakat"@, quoted(c.key_commit_harakat))
    }
}

/// The lines of the written file of `c`.
pub open spec fn toml_lines(c: ConfigView) -> Seq<Seq<char>> {
    Seq::new(55, |i: int| toml_line(c, i))
}

/// The `config.toml` text of configuration `c`.
pub open spec fn toml_text(c: ConfigView) -> Seq<char> {
    join_lines(toml_lines(c))
}

fn push_bool(out: &mut String, b: bool)
    ensures
        final(out)@ == old(out)@ + bool_text(b),
{
    if b {
        push_str(out, "true");
    } else {
        push_str(out, "false");
    }
}

fn push_quoted(out: &mut String, s: &str)
    ensures
        final(out)@ == old(out)@ + quoted(s@),
{
    let cs = chars_of(s);
    let ghost start = out@;
    push_char(out, '"');
    let mut i: usize = 0;
    while i < cs.len()
        invariant
            i <= cs@.len(),
            cs@ == s@,
            out@ == start + seq!['"'] + no_quotes(cs@.take(i as int)),
        decreases cs@.len() - i,
    {
        assert(cs@.take(i + 1).drop_last() =~= cs@.take(i as int));
        if cs[i] != '"' {
            push_char(out, cs[i]);
        }
        i += 1;
    }
    assert(cs@.take(cs@.len() as int) =~= cs@);
    push_char(out, '"');
    assert(out@ =~= start + quoted(s@));
}

fn push_list(out: &mut String, items: &Vec<String>)
    ensures
        final(out)@ == old(out)@ + list_text(strings_view(items@)),
{
    let ghost start = out@;
    let ghost iv = strings_view(items@);
    push_char(out, '[');
    let mut i: usize = 0;
    while i < items.len()
        invariant
            i <= items@.len(),
            iv == strings_view(items@),
            out@ == start + seq!['['] + join_quoted(iv.take(i as int)),
        decreases items@.len() - i,
    {
        assert(iv.take(i + 1).drop_last() =~= iv.take(i as int));
        if i > 0 {
            push_str(out, ", ");
        }
        push_quoted(out, items[i].as_str());
        proof {
            if i == 0 {
                assert(iv.take(1)[0] == iv[0]);
            }
        }
        assert(out@ =~= start + seq!['['] + join_quoted(iv.take(i + 1)));
        i += 1;
    }
    assert(iv.take(items@.len() as int) =~= iv);
    push_char(out, ']');
    assert(out@ =~= start + list_text(iv));
}

fn owned_text(t: &str) -> (r: String)
    ensures
        r@ == t@,
{
    let mut r = String::new();
    push_str(&mut r, t);
    assert(r@ =~= t@);
    r
}

fn push_key(out: &mut String, indented: bool, key: &str)
    ensures
        final(out)@ == old(out)@ + indent_text(indented) + key@ + " = "@,
{
    let ghost start = out@;
    if indented {
        push_str(out, "             ");
    }
    push_str(out, key);
    push_str(out, " = ");
    assert(out@ =~= start + indent_text(indented) + key@ + " = "@);
}

fn str_line(indented: bool, key: &str, s: &str) -> (r: String)
    ensures
        r@ == pair_line(indented, key@, quoted(s@)),
{
    let mut r = String::new();
    push_key(&mut r, indented, key);
    push_quoted(&mut r, s);
    assert(r@ =~= pair_line(indented, key@, quoted(s@)));
    r
}

fn bool_line(indented: bool, key: &str, b: bool) -> (r: String)
    ensures
        r@ == pair_line(indented, key@, bool_text(b)),
{
    let mut r = String::new();
    push_key(&mut r, indented, key);
    push_bool(&mut r, b);
    assert(r@ =~= pair_line(indented, key@, bool_text(b)));
    r
}

fn int_line(indented: bool, key: &str, n: i64) -> (r: String)
    ensures
        r@ == pair_line(indented, key@, int_text(n as int)),
{
    let mut r = String::new();
    push_key(&mut r, indented, key);
    push_int(&mut r, n);
    assert(r@ =~= pair_line(indented, key@, int_text(n as int)));
    r
}

fn list_line(indented: bool, key: &str, items: &Vec<String>) -> (r: String)
    ensures
        r@ == pair_line(indented, key@, list_text(strings_view(items@))),
{
    let mut r = String::new();
    push_key(&mut r, indented, key);
    push_list(&mut r, items);
    assert(r@ =~= pair_line(indented, key@, list_text(strings_view(items@))));
    r
}

fn section_text(name: &str) -> (r: String)
    ensures
        r@ == section_line(name@),
{
    let mut r = String::new();
    push_str(&mut r, "             [");
    push_str(&mut r, name);
    push_char(&mut r, ']');
    assert(r@ =~= section_line(name@)) by {
        reveal_strlit("]");
    }
    r
}

fn join_line_texts(lines: &Vec<String>) -> (r: String)
    ensures
        r@ == join_lines(strings_view(lines@)),
{
    let ghost lv = strings_view(lines@);
    let mut r = String::new();
    let mut i: usize = 0;
    while i < lines.len()
        invariant
            i <= lines@.len(),
            lv == strings_view(lines@),
            r@ == join_lines(lv.take(i as int)),
        decreases lines@.len() - i,
    {
        assert(lv.take(i + 1).drop_last() =~= lv.take(i as int));
        push_str(&mut r, lines[i].as_str());
        push_char(&mut r, '\n');
        assert(r@ =~= join_lines(lv.take(i + 1)));
        i += 1;
    }
    assert(lv.take(lines@.len() as int) =~= lv);
    r
}

impl Config {
    /// Parse; unknown keys ignored, invalid values keep defaults and produce warnings.
    pub fn parse(text: &str) -> (r: (Self, Vec<String>))
        ensures
            r.0.view() == spec_config(text@).0,
            strings_view(r.1@) == spec_config(text@).1,
    {
        let (pairs, mut warnings) = parse_toml(text);
        let ghost pv = pairs_view(pairs@);
        let ghost w0 = strings_view(warnings@);
        let mut c = Config::default();
        let mut n: usize = 0;
        while n < pairs.len()
            invariant
                n <= pairs@.len(),
                pv == pairs_view(pairs@),
                (c.view(), strings_view(warnings@)) == config_upto(default_view(), w0, pv, n as int),
            decreases pairs@.len() - n,
        {
            let k = &pairs[n].0;
            let v = clone_value(&pairs[n].1);
            assert(pv[n as int] == (k@, pairs@[n as int].1@));
            let kc = chars_of(k.as_str());
            let mut i: usize = 0;
            let mut found: Option<usize> = None;
            while i < 36
                invariant
                    i <= 36,
                    kc@ == k@,
                    found is None ==> find_key(k@, 0) == find_key(k@, i as int),
                    found matches Some(j) ==> find_key(k@, 0) == Some(j as int),
                decreases 36 - i,
            {
                if found.is_none() && eq_lit(kc.as_slice(), key_name(i)) {
                    found = Some(i);
                }
                i += 1;
            }
            match found {
                None => {},
                Some(j) => {
                    let ok = apply_key_exec(&mut c, j, v);
                    if !ok {
                        let mut w = String::new();
                        push_str(&mut w, "invalid value for ");
                        push_str(&mut w, k.as_str());
                        push_str(&mut w, "; using default");
                        let ghost before = strings_view(warnings@);
                        warnings.push(w);
                        assert(strings_view(warnings@) =~= before.push(warn_invalid(k@)));
                    }
                },
            }
            n += 1;
        }
        (c, warnings)
    }

    pub fn allah_form(&self) -> (r: AllahForm)
        ensures
            r == match AllahForm::spec_parse(self.allah_form@) {
                Some(f) => f,
                None => AllahForm::Shadda,
            },
    {
        match AllahForm::parse(self.allah_form.as_str()) {
            Some(f) => f,
            None => AllahForm::Shadda,
        }
    }

    pub fn tanween(&self) -> (r: TanweenStyle)
        ensures
            r == if self.adverbial_tanween {
                match TanweenStyle::spec_parse(self.tanween_style@) {
                    Some(t) => t,
                    None => TanweenStyle::OnAlif,
                }
            } else {
                TanweenStyle::Off
            },
    {
        if self.adverbial_tanween {
            match TanweenStyle::parse(self.tanween_style.as_str()) {
                Some(t) => t,
                None => TanweenStyle::OnAlif,
            }
        } else {
            TanweenStyle::Off
        }
    }

    pub fn harakat_mode(&self) -> (r: HarakatMode)
        ensures
            r == if self.vowel_harakat@ == "full"@ {
                HarakatMode::Full
            } else {
                HarakatMode::Light
            },
    {
        if str_eq(self.vowel_harakat.as_str(), "full") {
            HarakatMode::Full
        } else {
            HarakatMode::Light
        }
    }

    /// Serialize to the `config.toml` format. Every key is written, so the file is
    /// self-describing. Quotes inside strings are dropped (the reader has no escapes).
    pub fn to_toml(&self) -> (r: String)
        ensures
            r@ == toml_text(self.view()),
    {
        let mut lines: Vec<String> = Vec::new();
        lines.push(owned_text("# Type3arabi settings. Written by Type3arabi Settings."));
        lines.push(int_line(true, "schema", self.schema));
        lines.push(String::new());
        lines.push(section_text("general"));
        lines.push(str_line(false, "mode_toggle", self.mode_toggle.as_str()));
        lines.push(str_line(false, "mode_scope", self.mode_scope.as_str()));
        lines.push(bool_line(false, "global_hotkey_enabled", self.global_hotkey_enabled));
        lines.push(str_line(false, "global_hotkey", self.global_hotkey.as_str()));
        lines.push(String::new());
        lines.push(section_text("typing"));
        lines.push(str_line(false, "latin_layout", self.latin_layout.as_str()));
        lines.push(str_line(false, "inline_preview", self.inline_preview.as_str()));
        lines.push(int_line(false, "candidates_per_page", self.candidates_per_page));
        lines.push(bool_line(true, "predictive_completions", self.predictive_completions));
        lines.push(bool_line(false, "article_joining", self.article_joining));
        lines.push(bool_line(false, "reedit_backspace", self.reedit_backspace));
        lines.push(str_line(true, "commit_on_focus_loss", self.commit_on_focus_loss.as_str()));
        lines.push(bool_line(false, "latin_in_url_email", self.latin_in_url_email));
        lines.push(String::new());
        lines.push(section_text("dialect"));
        lines.push(str_line(false, "profile", self.dialect_profile.as_str()));
        lines.push(bool_line(false, "seed_from_region", self.seed_from_region));
        lines.push(String::new());
        lines.push(section_text("style"));
        lines.push(str_line(false, "allah_form", self.allah_form.as_str()));
        lines.push(bool_line(false, "adverbial_tanween", self.adverbial_tanween));
        lines.push(str_line(false, "tanween_style", self.tanween_style.as_str()));
        lines.push(str_line(false, "hamza", self.hamza.as_str()));
        lines.push(str_line(true, "vowel_harakat", self.vowel_harakat.as_str()));
        lines.push(bool_line(false, "arabic_punctuation", self.arabic_punctuation));
        lines.push(str_line(false, "numerals", self.numerals.as_str()));
        lines.push(String::new());
        lines.push(section_text("learning"));
        lines.push(bool_line(false, "enabled", self.learning_enabled));
        lines.push(bool_line(false, "sticky_last_choice", self.sticky_last_choice));
        lines.push(String::new());
        lines.push(section_text("privacy"));
        lines.push(bool_line(false, "use_surrounding_text", self.use_surrounding_text));
        lines.push(String::new());
        lines.push(section_text("appearance"));
        lines.push(str_line(false, "theme", self.theme.as_str()));
        lines.push(str_line(false, "font_family", self.font_family.as_str()));
        lines.push(int_line(false, "font_size", self.font_size));
        lines.push(str_line(false, "footer_hints", self.footer_hints.as_str()));
        lines.push(bool_line(true, "show_dialect_badge", self.show_dialect_badge));
        lines.push(String::new());
        lines.push(section_text("apps"));
        lines.push(list_line(false, "excluded", &self.excluded_apps));
        lines.push(bool_line(false, "rtl_assist", self.rtl_assist));
        lines.push(list_line(false, "rtl_assist_classes", &self.rtl_assist_classes));
        lines.push(String::new());
        lines.push(section_text("keys"));
        lines.push(str_line(false, "commit_latin", self.key_commit_latin.as_str()));
        lines.push(str_line(false, "open_tashkeel", self.key_open_tashkeel.as_str()));
        lines.push(str_line(false, "commit_harakat", self.key_commit_harakat.as_str()));
        assert(strings_view(lines@) =~= toml_lines(self.view()));
        join_line_texts(&lines)
    }

    pub fn to_engine_settings(&self) -> (r: EngineSettings)
        ensures
            r == EngineSettings::spec_from(self),
    {
        EngineSettings::from_config(self)
    }
}

} // verus!
