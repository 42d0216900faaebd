//! Seed-table values the verified code reads: rule flags and positions, phrases, and the
//! short-vowel marks per Latin vowel chunk and dialect.
use vstd::prelude::*;
use crate::alphabet::{encode, spec_encode};
use crate::arabic::{DAMMA, FATHA, KASRA};
use crate::config::{lines_of, strings_of, strings_view, text_lines};
use crate::dialect::{parse_mask, spec_parse_mask, Dialect};
use crate::keyed::chars_same;
use crate::normalize::{
    emphatic_symbol, spec_emphatic_symbol, EMPH_D, EMPH_H, EMPH_S, EMPH_T, EMPH_Z,
};
use crate::text::{
    chars_of, decimal, eq_lit, free_of, is_ws, join_on, lemma_split_plain, lemma_trim_same,
    push_char, push_chars, push_decimal, push_str, spec_trim, split_chars, split_on, str_eq,
    string_of, trim_chars,
};

verus! {

pub const POS_I: u8 = 1;
pub const POS_M: u8 = 2;
pub const POS_F: u8 = 4;
pub const POS_ANY: u8 = 7;

pub const F_VOWEL: u8 = 1;
pub const F_GEM: u8 = 2;
pub const F_TANWEEN: u8 = 4;
pub const F_ARTICLE: u8 = 8;

#[derive(Clone, Debug)]
pub struct Phrase {
    pub key: String,
    pub output: String,
    pub dialects: u8,
    pub default: bool,
}

/// Rows of the vowel-mark table: (Latin vowel chunk, dialect mask (0 = any), mark).
#[derive(Clone, Debug)]
pub struct VowelMarks {
    pub rows: Vec<(String, u8, char)>,
}

/// The first row at or after `i` for chunk `latin` whose dialect mask names `bit` (or, with
/// `any`, whose mask is 0).
pub open spec fn first_mark(rows: Seq<(String, u8, char)>, latin: Seq<char>, bit: u8, any: bool, i: int) -> Option<char>
    decreases rows.len() - i,
{
    if i >= rows.len() {
        None
    } else if rows[i].0@ == latin && (if any { rows[i].1 == 0 } else { rows[i].1 & bit != 0 }) {
        Some(rows[i].2)
    } else {
        first_mark(rows, latin, bit, any, i + 1)
    }
}

impl VowelMarks {
    /// The mark for chunk `latin` under dialect `d`: the first row naming `d`, else the first row
    /// for any dialect.
    pub open spec fn spec_vowel_mark(self, latin: Seq<char>, d: Dialect) -> Option<char> {
        match first_mark(self.rows@, latin, d.spec_bit(), false, 0) {
            Some(m) => Some(m),
            None => first_mark(self.rows@, latin, d.spec_bit(), true, 0),
        }
    }

    fn find(&self, latin: &str, bit: u8, any: bool) -> (r: Option<char>)
        ensures
            r == first_mark(self.rows@, latin@, bit, any, 0),
    {
        let mut i: usize = 0;
        while i < self.rows.len()
            invariant
                i <= self.rows@.len(),
                first_mark(self.rows@, latin@, bit, any, 0) == first_mark(self.rows@, latin@, bit, any, i as int),
            decreases self.rows@.len() - i,
        {
            let row = &self.rows[i];
            let hit = if any { row.1 == 0 } else { row.1 & bit != 0 };
            if hit && str_eq(row.0.as_str(), latin) {
                return Some(row.2);
            }
            i += 1;
        }
        None
    }

    /// Short-vowel mark for a Latin vowel chunk under dialect `d`, most specific row wins.
    pub fn vowel_mark(&self, latin: &str, d: Dialect) -> (r: Option<char>)
        ensures
            r == self.spec_vowel_mark(latin@, d),
    {
        let bit = d.bit();
        match self.find(latin, bit, false) {
            Some(m) => Some(m),
            None => self.find(latin, bit, true),
        }
    }
}

// ---------------------------------------------------------------------------------------------
// The transliteration rules.

/// One row of `mappings.tsv`, without its weight: the weight is a float, and the caller keeps it
/// at the row's index.
#[derive(Clone, Debug)]
pub struct RuleRow {
    /// Latin chunk as normalized symbols (emphatics mapped).
    pub latin: Vec<char>,
    /// Arabic chunk as letter codes.
    pub arabic: Vec<u8>,
    /// `POS_*` bits; `explicit_pos` is false when the file said `*`.
    pub pos: u8,
    pub explicit_pos: bool,
    /// Dialect bitmask; 0 = `*`.
    pub dialects: u8,
    pub flags: u8,
}

pub struct RuleView {
    pub latin: Seq<char>,
    pub arabic: Seq<u8>,
    pub pos: u8,
    pub explicit_pos: bool,
    pub dialects: u8,
    pub flags: u8,
}

impl View for RuleRow {
    type V = RuleView;

    open spec fn view(&self) -> RuleView {
        RuleView {
            latin: self.latin@,
            arabic: self.arabic@,
            pos: self.pos,
            explicit_pos: self.explicit_pos,
            dialects: self.dialects,
            flags: self.flags,
        }
    }
}

pub struct PhraseView {
    pub key: Seq<char>,
    pub output: Seq<char>,
    pub dialects: u8,
    pub default: bool,
}

impl View for Phrase {
    type V = PhraseView;

    open spec fn view(&self) -> PhraseView {
        PhraseView {
            key: self.key@,
            output: self.output@,
            dialects: self.dialects,
            default: self.default,
        }
    }
}

/// The seed tables the engine reads: rules, phrases and vowel marks. (The region priors are
/// floats and stay with the caller.)
#[derive(Clone, Debug)]
pub struct SeedTables {
    pub rules: Vec<RuleRow>,
    pub phrases: Vec<Phrase>,
    pub vowel_marks: VowelMarks,
}

/// The longest Latin chunk among the first `n` rules (0 for none).
pub open spec fn max_chunk(rules: Seq<RuleRow>, n: int) -> nat
    decreases n,
{
    if n <= 0 {
        0
    } else {
        let m = max_chunk(rules, n - 1);
        if rules[n - 1].latin@.len() > m {
            rules[n - 1].latin@.len()
        } else {
            m
        }
    }
}

/// Rule `r` is for `chunk` at one of the positions `pos`.
pub open spec fn applies(r: RuleRow, chunk: Seq<char>, pos: u8) -> bool {
    r.latin@ == chunk && r.pos & pos != 0
}

pub open spec fn applies_explicitly(r: RuleRow, chunk: Seq<char>, pos: u8) -> bool {
    applies(r, chunk, pos) && r.explicit_pos
}

/// Some rule for `chunk` at `pos` names its positions.
pub open spec fn any_explicit(rules: Seq<RuleRow>, chunk: Seq<char>, pos: u8) -> bool {
    exists|i: int| 0 <= i < rules.len() && #[trigger] applies_explicitly(rules[i], chunk, pos)
}

/// Rule `r` is in the group for `chunk` at `pos`: the rules that name their positions when there
/// are any, else all the rules that apply.
pub open spec fn in_group(rules: Seq<RuleRow>, r: RuleRow, chunk: Seq<char>, pos: u8) -> bool {
    applies(r, chunk, pos) && (any_explicit(rules, chunk, pos) ==> r.explicit_pos)
}

pub open spec fn names_in_group(rules: Seq<RuleRow>, r: RuleRow, chunk: Seq<char>, pos: u8, bit: u8) -> bool {
    in_group(rules, r, chunk, pos) && r.dialects & bit != 0
}

/// Some rule of the group names the dialect `bit`.
pub open spec fn any_named(rules: Seq<RuleRow>, chunk: Seq<char>, pos: u8, bit: u8) -> bool {
    exists|i: int| 0 <= i < rules.len() && #[trigger] names_in_group(rules, rules[i], chunk, pos, bit)
}

/// Rule `r` is one the resolution keeps: in the group, and naming the dialect when some rule of
/// the group does, else naming none.
pub open spec fn resolved(rules: Seq<RuleRow>, r: RuleRow, chunk: Seq<char>, pos: u8, bit: u8) -> bool {
    &&& in_group(rules, r, chunk, pos)
    &&& if any_named(rules, chunk, pos, bit) {
        r.dialects & bit != 0
    } else {
        r.dialects == 0
    }
}

/// The indices below `n` of the rules the resolution keeps, in order.
pub open spec fn resolved_upto(rules: Seq<RuleRow>, chunk: Seq<char>, pos: u8, bit: u8, n: int) -> Seq<int>
    decreases n,
{
    if n <= 0 {
        Seq::empty()
    } else {
        let p = resolved_upto(rules, chunk, pos, bit, n - 1);
        if resolved(rules, rules[n - 1], chunk, pos, bit) {
            p.push(n - 1)
        } else {
            p
        }
    }
}

pub open spec fn spec_resolve(rules: Seq<RuleRow>, chunk: Seq<char>, pos: u8, bit: u8) -> Seq<int> {
    resolved_upto(rules, chunk, pos, bit, rules.len() as int)
}

proof fn lemma_resolved_upto(rules: Seq<RuleRow>, chunk: Seq<char>, pos: u8, bit: u8, n: int)
    requires
        0 <= n <= rules.len(),
    ensures
        forall|k: int| 0 <= k < resolved_upto(rules, chunk, pos, bit, n).len() ==> {
            let i = #[trigger] resolved_upto(rules, chunk, pos, bit, n)[k];
            0 <= i < n && resolved(rules, rules[i], chunk, pos, bit)
        },
        forall|k: int, l: int| 0 <= k < l < resolved_upto(rules, chunk, pos, bit, n).len()
            ==> #[trigger] resolved_upto(rules, chunk, pos, bit, n)[k]
            < #[trigger] resolved_upto(rules, chunk, pos, bit, n)[l],
        forall|i: int| 0 <= i < n && #[trigger] resolved(rules, rules[i], chunk, pos, bit)
            ==> resolved_upto(rules, chunk, pos, bit, n).contains(i),
    decreases n,
{
    if n > 0 {
        lemma_resolved_upto(rules, chunk, pos, bit, n - 1);
        let p = resolved_upto(rules, chunk, pos, bit, n - 1);
        if resolved(rules, rules[n - 1], chunk, pos, bit) {
            let q = p.push(n - 1);
            assert forall|i: int| 0 <= i < n && #[trigger] resolved(rules, rules[i], chunk, pos, bit)
                implies q.contains(i) by {
                if i < n - 1 {
                    let k = choose|k: int| 0 <= k < p.len() && p[k] == i;
                    assert(q[k] == i);
                } else {
                    assert(q[p.len() as int] == i);
                }
            }
        }
    }
}

/// Most specific wins: the rules `resolve` keeps for `chunk`, `pos` and dialect `d` are, in
/// order, exactly those that apply and are not outranked; a rule that names its positions
/// outranks one that does not, and then a rule that names `d` outranks one for any dialect.
pub proof fn law_resolve_most_specific(t: SeedTables, chunk: Seq<char>, pos: u8, d: Dialect)
    ensures
        forall|k: int| 0 <= k < spec_resolve(t.rules@, chunk, pos, d.spec_bit()).len() ==> {
            let i = #[trigger] spec_resolve(t.rules@, chunk, pos, d.spec_bit())[k];
            &&& 0 <= i < t.rules@.len()
            &&& applies(t.rules@[i], chunk, pos)
            &&& any_explicit(t.rules@, chunk, pos) ==> t.rules@[i].explicit_pos
            &&& any_named(t.rules@, chunk, pos, d.spec_bit()) ==> t.rules@[i].dialects
                & d.spec_bit() != 0
            &&& !any_named(t.rules@, chunk, pos, d.spec_bit()) ==> t.rules@[i].dialects == 0
        },
        forall|k: int, l: int| 0 <= k < l < spec_resolve(t.rules@, chunk, pos, d.spec_bit()).len()
            ==> #[trigger] spec_resolve(t.rules@, chunk, pos, d.spec_bit())[k]
            < #[trigger] spec_resolve(t.rules@, chunk, pos, d.spec_bit())[l],
        forall|i: int| 0 <= i < t.rules@.len() && #[trigger] resolved(t.rules@, t.rules@[i], chunk, pos, d.spec_bit())
            ==> spec_resolve(t.rules@, chunk, pos, d.spec_bit()).contains(i),
{
    lemma_resolved_upto(t.rules@, chunk, pos, d.spec_bit(), t.rules@.len() as int);
}

/// Phrase `p` is for a dialect of the mask `likely` (or for any dialect).
pub open spec fn phrase_dialect_ok(p: Phrase, likely: u8) -> bool {
    p.dialects == 0 || exists|d: Dialect| p.dialects & d.spec_bit() != 0 && #[trigger] (likely
        & d.spec_bit()) != 0
}

/// The indices below `n` of the phrases with key `key` for a likely dialect, in order.
pub open spec fn phrases_upto(phrases: Seq<Phrase>, key: Seq<char>, likely: u8, n: int) -> Seq<int>
    decreases n,
{
    if n <= 0 {
        Seq::empty()
    } else {
        let p = phrases_upto(phrases, key, likely, n - 1);
        if phrases[n - 1].key@ == key && phrase_dialect_ok(phrases[n - 1], likely) {
            p.push(n - 1)
        } else {
            p
        }
    }
}

fn shares_dialect(dialects: u8, likely: u8) -> (r: bool)
    ensures
        r == exists|d: Dialect| dialects & d.spec_bit() != 0 && #[trigger] (likely & d.spec_bit())
            != 0,
{
    let r = (dialects & 1 != 0 && likely & 1 != 0) || (dialects & 2 != 0 && likely & 2 != 0) || (
    dialects & 4 != 0 && likely & 4 != 0) || (dialects & 8 != 0 && likely & 8 != 0) || (dialects
        & 16 != 0 && likely & 16 != 0) || (dialects & 32 != 0 && likely & 32 != 0);
    proof {
        if r {
            if dialects & 1 != 0 && likely & 1 != 0 {
                assert(likely & Dialect::Msa.spec_bit() != 0);
            } else if dialects & 2 != 0 && likely & 2 != 0 {
                assert(likely & Dialect::Lev.spec_bit() != 0);
            } else if dialects & 4 != 0 && likely & 4 != 0 {
                assert(likely & Dialect::Egy.spec_bit() != 0);
            } else if dialects & 8 != 0 && likely & 8 != 0 {
                assert(likely & Dialect::Glf.spec_bit() != 0);
            } else if dialects & 16 != 0 && likely & 16 != 0 {
                assert(likely & Dialect::Irq.spec_bit() != 0);
            } else {
                assert(likely & Dialect::Mag.spec_bit() != 0);
            }
        } else {
            assert forall|d: Dialect| !(dialects & d.spec_bit() != 0 && #[trigger] (likely
                & d.spec_bit()) != 0) by {
                match d {
                    Dialect::Msa => {},
                    Dialect::Lev => {},
                    Dialect::Egy => {},
                    Dialect::Glf => {},
                    Dialect::Irq => {},
                    Dialect::Mag => {},
                }
            }
        }
    }
    r
}

impl SeedTables {
    pub fn max_chunk_len(&self) -> (r: usize)
        ensures
            r == max_chunk(self.rules@, self.rules@.len() as int),
    {
        let mut m: usize = 0;
        let mut i: usize = 0;
        while i < self.rules.len()
            invariant
                i <= self.rules@.len(),
                m == max_chunk(self.rules@, i as int),
            decreases self.rules@.len() - i,
        {
            let n = self.rules[i].latin.len();
            if n > m {
                m = n;
            }
            i += 1;
        }
        m
    }

    pub fn has_chunk(&self, chunk: &[char]) -> (r: bool)
        ensures
            r == exists|i: int| 0 <= i < self.rules@.len() && #[trigger] self.rules@[i].latin@ == chunk@,
    {
        let mut i: usize = 0;
        while i < self.rules.len()
            invariant
                i <= self.rules@.len(),
                forall|j: int| 0 <= j < i ==> #[trigger] self.rules@[j].latin@ != chunk@,
            decreases self.rules@.len() - i,
        {
            if chars_same(self.rules[i].latin.as_slice(), chunk) {
                return true;
            }
            i += 1;
        }
        false
    }

    /// The rules for `chunk` at position set `pos` under dialect `d`, after "most specific wins"
    /// resolution, as indices in row order. (Weighting them is the caller's: the weights are
    /// floats.)
    pub fn resolve(&self, chunk: &[char], pos: u8, d: Dialect) -> (r: Vec<usize>)
        ensures
            r@.map_values(|i: usize| i as int) == spec_resolve(self.rules@, chunk@, pos, d.spec_bit()),
    {
        let rules = &self.rules;
        let bit = d.bit();
        let mut explicit = false;
        let mut i: usize = 0;
        while i < rules.len()
            invariant
                i <= rules@.len(),
                explicit == exists|j: int| 0 <= j < i && #[trigger] applies_explicitly(rules@[j], chunk@, pos),
            decreases rules@.len() - i,
        {
            let r = &rules[i];
            if r.explicit_pos && r.pos & pos != 0 && chars_same(r.latin.as_slice(), chunk) {
                assert(applies_explicitly(rules@[i as int], chunk@, pos));
                explicit = true;
            }
            assert(applies_explicitly(rules@[i as int], chunk@, pos) ==> explicit);
            i += 1;
        }
        let mut named = false;
        let mut i: usize = 0;
        while i < rules.len()
            invariant
                i <= rules@.len(),
                explicit == any_explicit(rules@, chunk@, pos),
                named == exists|j: int| 0 <= j < i && #[trigger] names_in_group(rules@, rules@[j], chunk@, pos, bit),
            decreases rules@.len() - i,
        {
            let r = &rules[i];
            if (r.explicit_pos || !explicit) && r.pos & pos != 0 && r.dialects & bit != 0 && chars_same(
                r.latin.as_slice(),
                chunk,
            ) {
                assert(names_in_group(rules@, rules@[i as int], chunk@, pos, bit));
                named = true;
            }
            assert(names_in_group(rules@, rules@[i as int], chunk@, pos, bit) ==> named);
            i += 1;
        }
        let mut out: Vec<usize> = Vec::new();
        let mut i: usize = 0;
        while i < rules.len()
            invariant
                i <= rules@.len(),
                explicit == any_explicit(rules@, chunk@, pos),
                named == any_named(rules@, chunk@, pos, bit),
                out@.map_values(|k: usize| k as int) == resolved_upto(rules@, chunk@, pos, bit, i as int),
            decreases rules@.len() - i,
        {
            let r = &rules[i];
            let dialect_ok = if named { r.dialects & bit != 0 } else { r.dialects == 0 };
            if (r.explicit_pos || !explicit) && r.pos & pos != 0 && dialect_ok && chars_same(
                r.latin.as_slice(),
                chunk,
            ) {
                let ghost before = out@.map_values(|k: usize| k as int);
                out.push(i);
                assert(out@.map_values(|k: usize| k as int) =~= before.push(i as int));
            }
            i += 1;
        }
        out
    }

    /// The phrases whose key equals `key`, for any dialect or for one of the dialects of
    /// `likely` (the caller's mask of the dialects its posterior finds likely), as indices in
    /// order.
    pub fn phrases_for(&self, key: &str, likely: u8) -> (r: Vec<usize>)
        ensures
            r@.map_values(|i: usize| i as int) == phrases_upto(self.phrases@, key@, likely, self.phrases@.len() as int),
    {
        let mut out: Vec<usize> = Vec::new();
        let mut i: usize = 0;
        while i < self.phrases.len()
            invariant
                i <= self.phrases@.len(),
                out@.map_values(|k: usize| k as int) == phrases_upto(self.phrases@, key@, likely, i as int),
            decreases self.phrases@.len() - i,
        {
            let p = &self.phrases[i];
            if str_eq(p.key.as_str(), key) && (p.dialects == 0 || shares_dialect(p.dialects, likely)) {
                let ghost before = out@.map_values(|k: usize| k as int);
                out.push(i);
                assert(out@.map_values(|k: usize| k as int) =~= before.push(i as int));
            }
            i += 1;
        }
        out
    }

    /// Short-vowel mark for a Latin vowel chunk under dialect `d`, most specific row wins.
    pub fn vowel_mark(&self, latin: &str, d: Dialect) -> (r: Option<char>)
        ensures
            r == self.vowel_marks.spec_vowel_mark(latin@, d),
    {
        self.vowel_marks.vowel_mark(latin, d)
    }
}

// ---------------------------------------------------------------------------------------------
// Reading the seed files.

/// A data line: neither blank nor a comment.
pub open spec fn is_data_line(l: Seq<char>) -> bool {
    spec_trim(l).len() > 0 && !(l.len() > 0 && l[0] == '#')
}

/// The data lines among the first `n` lines, with their line numbers (counted from 1).
pub open spec fn data_upto(ls: Seq<Seq<char>>, n: int) -> Seq<(int, Seq<char>)>
    decreases n,
{
    if n <= 0 {
        Seq::empty()
    } else {
        let p = data_upto(ls, n - 1);
        if is_data_line(ls[n - 1]) {
            p.push((n, ls[n - 1]))
        } else {
            p
        }
    }
}

pub open spec fn after_header(rows: Seq<(int, Seq<char>)>) -> Seq<(int, Seq<Seq<char>>)> {
    let body = if rows.len() == 0 {
        rows
    } else {
        rows.drop_first()
    };
    body.map_values(|p: (int, Seq<char>)| (p.0, split_on(p.1, '\t')))
}

/// The rows of a TSV text: its data lines after the header row, with their line numbers, cut at
/// tabs.
pub open spec fn spec_data_lines(tsv: Seq<char>) -> Seq<(int, Seq<Seq<char>>)> {
    let ls = text_lines(tsv);
    after_header(data_upto(ls, ls.len() as int))
}

pub open spec fn rows_view(r: Seq<(usize, Vec<String>)>) -> Seq<(int, Seq<Seq<char>>)> {
    r.map_values(|p: (usize, Vec<String>)| (p.0 as int, strings_view(p.1@)))
}

/// The data rows of a TSV text after its header row, with their line numbers.
pub fn data_lines(tsv: &str) -> (r: Vec<(usize, Vec<String>)>)
    ensures
        rows_view(r@) == spec_data_lines(tsv@),
{
    let lines = lines_of(tsv);
    let ghost lv = lines@.map_values(|w: Vec<char>| w@);
    let mut out: Vec<(usize, Vec<String>)> = Vec::new();
    let mut seen = false;
    let mut i: usize = 0;
    while i < lines.len()
        invariant
            i <= lines@.len(),
            lv == lines@.map_values(|w: Vec<char>| w@),
            lv == text_lines(tsv@),
            seen == (data_upto(lv, i as int).len() > 0),
            rows_view(out@) == after_header(data_upto(lv, i as int)),
        decreases lines@.len() - i,
    {
        let line = &lines[i];
        assert(lv[i as int] == line@);
        let ghost before = data_upto(lv, i as int);
        let t = trim_chars(line.as_slice());
        if t.len() > 0 && !(line.len() > 0 && line[0] == '#') {
            let ghost now = data_upto(lv, i + 1);
            assert(now == before.push((i + 1, line@)));
            if seen {
                let cells = strings_of(&split_chars(line.as_slice(), '\t'));
                let ghost v0 = rows_view(out@);
                out.push((i + 1, cells));
                assert(now.drop_first() =~= before.drop_first().push((i + 1, line@)));
                assert(rows_view(out@) =~= v0.push((i + 1, split_on(line@, '\t'))));
                assert(rows_view(out@) =~= after_header(now));
            } else {
                assert(now.drop_first() =~= Seq::<(int, Seq<char>)>::empty());
                assert(rows_view(out@) =~= after_header(now));
                seen = true;
            }
        }
        i += 1;
    }
    out
}

/// `file:line: msg`.
pub open spec fn row_err(file: Seq<char>, line: int, msg: Seq<char>) -> Seq<char> {
    file + ":"@ + decimal(line as nat) + ": "@ + msg
}

fn row_error(file: &str, line: usize, msg: &[char]) -> (r: String)
    ensures
        r@ == row_err(file@, line as int, msg@),
{
    let mut r = String::new();
    push_str(&mut r, file);
    push_str(&mut r, ":");
    push_decimal(&mut r, line as u64);
    push_str(&mut r, ": ");
    push_chars(&mut r, msg);
    assert(r@ =~= row_err(file@, line as int, msg@));
    r
}

fn row_error_str(file: &str, line: usize, msg: &str) -> (r: String)
    ensures
        r@ == row_err(file@, line as int, msg@),
{
    let m = chars_of(msg);
    row_error(file, line, m.as_slice())
}

/// `head` + `s` + `'`.
fn quoted_message(head: &str, s: &[char]) -> (r: Vec<char>)
    ensures
        r@ == head@ + s@ + "'"@,
{
    let mut m = String::new();
    push_str(&mut m, head);
    push_chars(&mut m, s);
    push_str(&mut m, "'");
    assert(m@ =~= head@ + s@ + "'"@);
    chars_of(m.as_str())
}

/// A Latin chunk as symbols: the emphatic letters mapped.
pub open spec fn spec_parse_latin(s: Seq<char>) -> Seq<char> {
    s.map_values(
        |c: char|
            match spec_emphatic_symbol(c) {
                Some(e) => e,
                None => c,
            },
    )
}

pub fn parse_latin(s: &str) -> (r: Vec<char>)
    ensures
        r@ == spec_parse_latin(s@),
{
    let cs = chars_of(s);
    let mut out: Vec<char> = Vec::new();
    let mut i: usize = 0;
    while i < cs.len()
        invariant
            i <= cs@.len(),
            cs@ == s@,
            out@ =~= spec_parse_latin(s@).take(i as int),
        decreases cs@.len() - i,
    {
        let c = cs[i];
        let e = match emphatic_symbol(c) {
            Some(e) => e,
            None => c,
        };
        out.push(e);
        i += 1;
    }
    out
}

/// The position bits of `s` (`I`, `M`, `F`), if it holds no other character.
pub open spec fn pos_bits(s: Seq<char>) -> Option<u8>
    decreases s.len(),
{
    if s.len() == 0 {
        Some(0)
    } else {
        match pos_bits(s.drop_last()) {
            None => None,
            Some(p) => if s.last() == 'I' {
                Some(p | POS_I)
            } else if s.last() == 'M' {
                Some(p | POS_M)
            } else if s.last() == 'F' {
                Some(p | POS_F)
            } else {
                None
            },
        }
    }
}

/// A position column: `*` for any position, else letters among `I`, `M`, `F`.
pub open spec fn spec_parse_pos(s: Seq<char>) -> Result<(u8, bool), Seq<char>> {
    if s == "*"@ {
        Ok((POS_ANY, false))
    } else {
        match pos_bits(s) {
            Some(p) => Ok((p, true)),
            None => Err("bad pos '"@ + s + "'"@),
        }
    }
}

proof fn lemma_pos_none_stays(s: Seq<char>, k: int, j: int)
    requires
        0 <= k <= j <= s.len(),
        pos_bits(s.take(k)) is None,
    ensures
        pos_bits(s.take(j)) is None,
    decreases j - k,
{
    if j > k {
        lemma_pos_none_stays(s, k, j - 1);
        assert(s.take(j).drop_last() =~= s.take(j - 1));
    }
}

pub fn parse_pos(s: &str) -> (r: Result<(u8, bool), String>)
    ensures
        match r {
            Ok(p) => spec_parse_pos(s@) == Ok::<(u8, bool), Seq<char>>(p),
            Err(e) => spec_parse_pos(s@) == Err::<(u8, bool), Seq<char>>(e@),
        },
{
    if str_eq(s, "*") {
        return Ok((POS_ANY, false));
    }
    let cs = chars_of(s);
    let mut p: u8 = 0;
    let mut i: usize = 0;
    while i < cs.len()
        invariant
            i <= cs@.len(),
            cs@ == s@,
            s@ != "*"@,
            pos_bits(s@.take(i as int)) == Some(p),
        decreases cs@.len() - i,
    {
        assert(s@.take(i + 1).drop_last() =~= s@.take(i as int));
        let c = cs[i];
        if c == 'I' {
            p = p | POS_I;
        } else if c == 'M' {
            p = p | POS_M;
        } else if c == 'F' {
            p = p | POS_F;
        } else {
            proof {
                assert(s@.take(i + 1).last() == c);
                assert(pos_bits(s@.take(i + 1)) is None);
                lemma_pos_none_stays(s@, i + 1, s@.len() as int);
                assert(s@.take(s@.len() as int) =~= s@);
            }
            let m = quoted_message("bad pos '", cs.as_slice());
            return Err(string_of(m.as_slice()));
        }
        i += 1;
    }
    assert(s@.take(s@.len() as int) =~= s@);
    Ok((p, true))
}

/// The flag a (trimmed) flag name stands for.
pub open spec fn flag_of(name: Seq<char>) -> Option<u8> {
    if name == "VOWEL"@ {
        Some(F_VOWEL)
    } else if name == "GEM"@ {
        Some(F_GEM)
    } else if name == "TANWEEN"@ {
        Some(F_TANWEEN)
    } else if name == "ARTICLE"@ {
        Some(F_ARTICLE)
    } else {
        None
    }
}

/// The flags of the first `k` comma-separated parts, or the message for the first unknown one.
pub open spec fn flags_of(parts: Seq<Seq<char>>, k: int) -> Result<u8, Seq<char>>
    decreases k,
{
    if k <= 0 {
        Ok(0)
    } else {
        match flags_of(parts, k - 1) {
            Err(e) => Err(e),
            Ok(f) => match flag_of(spec_trim(parts[k - 1])) {
                Some(b) => Ok(f | b),
                None => Err("bad flag '"@ + spec_trim(parts[k - 1]) + "'"@),
            },
        }
    }
}

/// A flags column: `-` or empty for none, else comma-separated flag names.
pub open spec fn spec_parse_flags(s: Seq<char>) -> Result<u8, Seq<char>> {
    if s == "-"@ || s.len() == 0 {
        Ok(0)
    } else {
        let parts = split_on(s, ',');
        flags_of(parts, parts.len() as int)
    }
}

proof fn lemma_flags_err_stays(parts: Seq<Seq<char>>, k: int, j: int)
    requires
        0 <= k <= j,
        flags_of(parts, k) is Err,
    ensures
        flags_of(parts, j) == flags_of(parts, k),
    decreases j - k,
{
    if j > k {
        lemma_flags_err_stays(parts, k, j - 1);
    }
}

pub fn parse_flags(s: &str) -> (r: Result<u8, String>)
    ensures
        match r {
            Ok(f) => spec_parse_flags(s@) == Ok::<u8, Seq<char>>(f),
            Err(e) => spec_parse_flags(s@) == Err::<u8, Seq<char>>(e@),
        },
{
    if str_eq(s, "-") || s.unicode_len() == 0 {
        return Ok(0);
    }
    let cs = chars_of(s);
    let parts = split_chars(cs.as_slice(), ',');
    let ghost pv = parts@.map_values(|w: Vec<char>| w@);
    let mut f: u8 = 0;
    let mut k: usize = 0;
    while k < parts.len()
        invariant
            k <= parts@.len(),
            pv == parts@.map_values(|w: Vec<char>| w@),
            pv == split_on(s@, ','),
            !(s@ == "-"@ || s@.len() == 0),
            flags_of(pv, k as int) == Ok::<u8, Seq<char>>(f),
        decreases parts@.len() - k,
    {
        assert(pv[k as int] == parts@[k as int]@);
        let t = trim_chars(parts[k].as_slice());
        if eq_lit(t.as_slice(), "VOWEL") {
            f = f | F_VOWEL;
        } else if eq_lit(t.as_slice(), "GEM") {
            f = f | F_GEM;
        } else if eq_lit(t.as_slice(), "TANWEEN") {
            f = f | F_TANWEEN;
        } else if eq_lit(t.as_slice(), "ARTICLE") {
            f = f | F_ARTICLE;
        } else {
            proof {
                lemma_flags_err_stays(pv, k + 1, pv.len() as int);
            }
            let m = quoted_message("bad flag '", t.as_slice());
            return Err(string_of(m.as_slice()));
        }
        k += 1;
    }
    Ok(f)
}

/// One row of `mappings.tsv` (line `line`, cells `c`), checked in the order of its columns;
/// `weight_ok` tells whether its weight column reads as a number.
pub open spec fn spec_parse_rule(line: int, c: Seq<Seq<char>>, weight_ok: bool) -> Result<RuleView, Seq<char>> {
    let f = "mappings.tsv"@;
    if c.len() < 6 {
        Err(row_err(f, line, "expected >= 6 columns"@))
    } else {
        let arabic = if c[1] == "ε"@ {
            Some(Seq::<u8>::empty())
        } else {
            spec_encode(c[1])
        };
        match arabic {
            None => Err(row_err(f, line, "non-alphabet Arabic '"@ + c[1] + "'"@)),
            Some(a) => if a.len() > 3 {
                Err(row_err(f, line, "Arabic chunk longer than 3"@))
            } else {
                let latin = spec_parse_latin(c[0]);
                if latin.len() == 0 || latin.len() > 4 {
                    Err(row_err(f, line, "Latin chunk must be 1-4 symbols"@))
                } else if !weight_ok {
                    Err(row_err(f, line, "bad weight"@))
                } else {
                    match spec_parse_pos(c[3]) {
                        Err(e) => Err(row_err(f, line, e)),
                        Ok(pe) => match spec_parse_mask(c[4]) {
                            Err(e) => Err(row_err(f, line, e)),
                            Ok(m) => match spec_parse_flags(c[5]) {
                                Err(e) => Err(row_err(f, line, e)),
                                Ok(fl) => Ok(
                                    RuleView {
                                        latin,
                                        arabic: a,
                                        pos: pe.0,
                                        explicit_pos: pe.1,
                                        dialects: m,
                                        flags: fl,
                                    },
                                ),
                            },
                        },
                    }
                }
            },
        }
    }
}

pub fn parse_rule(line: usize, c: &Vec<String>, weight_ok: bool) -> (r: Result<RuleRow, String>)
    ensures
        match r {
            Ok(x) => spec_parse_rule(line as int, strings_view(c@), weight_ok) == Ok::<RuleView, Seq<char>>(x@),
            Err(e) => spec_parse_rule(line as int, strings_view(c@), weight_ok) == Err::<RuleView, Seq<char>>(e@),
        },
{
    let ghost cv = strings_view(c@);
    let f = "mappings.tsv";
    if c.len() < 6 {
        return Err(row_error_str(f, line, "expected >= 6 columns"));
    }
    assert(cv[0] == c@[0]@ && cv[1] == c@[1]@ && cv[3] == c@[3]@ && cv[4] == c@[4]@ && cv[5] == c@[5]@);
    let arabic: Vec<u8> = if str_eq(c[1].as_str(), "ε") {
        Vec::new()
    } else {
        match encode(c[1].as_str()) {
            Some(a) => a,
            None => {
                let m = quoted_message("non-alphabet Arabic '", chars_of(c[1].as_str()).as_slice());
                return Err(row_error(f, line, m.as_slice()));
            },
        }
    };
    if arabic.len() > 3 {
        return Err(row_error_str(f, line, "Arabic chunk longer than 3"));
    }
    let latin = parse_latin(c[0].as_str());
    if latin.len() == 0 || latin.len() > 4 {
        return Err(row_error_str(f, line, "Latin chunk must be 1-4 symbols"));
    }
    if !weight_ok {
        return Err(row_error_str(f, line, "bad weight"));
    }
    let (pos, explicit_pos) = match parse_pos(c[3].as_str()) {
        Ok(p) => p,
        Err(e) => {
            return Err(row_error(f, line, chars_of(e.as_str()).as_slice()));
        },
    };
    let dialects = match parse_mask(c[4].as_str()) {
        Ok(m) => m,
        Err(e) => {
            return Err(row_error(f, line, chars_of(e.as_str()).as_slice()));
        },
    };
    let flags = match parse_flags(c[5].as_str()) {
        Ok(fl) => fl,
        Err(e) => {
            return Err(row_error(f, line, chars_of(e.as_str()).as_slice()));
        },
    };
    Ok(RuleRow { latin, arabic, pos, explicit_pos, dialects, flags })
}

/// One row of `phrases.tsv`.
pub open spec fn spec_parse_phrase(line: int, c: Seq<Seq<char>>) -> Result<PhraseView, Seq<char>> {
    let f = "phrases.tsv"@;
    if c.len() < 4 {
        Err(row_err(f, line, "expected >= 4 columns"@))
    } else {
        match spec_parse_mask(c[2]) {
            Err(e) => Err(row_err(f, line, e)),
            Ok(m) => Ok(PhraseView { key: c[0], output: c[1], dialects: m, default: spec_trim(c[3]) == "1"@ }),
        }
    }
}

pub fn parse_phrase(line: usize, c: &Vec<String>) -> (r: Result<Phrase, String>)
    ensures
        match r {
            Ok(x) => spec_parse_phrase(line as int, strings_view(c@)) == Ok::<PhraseView, Seq<char>>(x@),
            Err(e) => spec_parse_phrase(line as int, strings_view(c@)) == Err::<PhraseView, Seq<char>>(e@),
        },
{
    let ghost cv = strings_view(c@);
    let f = "phrases.tsv";
    if c.len() < 4 {
        return Err(row_error_str(f, line, "expected >= 4 columns"));
    }
    assert(cv[0] == c@[0]@ && cv[1] == c@[1]@ && cv[2] == c@[2]@ && cv[3] == c@[3]@);
    let dialects = match parse_mask(c[2].as_str()) {
        Ok(m) => m,
        Err(e) => {
            return Err(row_error(f, line, chars_of(e.as_str()).as_slice()));
        },
    };
    let t = trim_chars(chars_of(c[3].as_str()).as_slice());
    let default = eq_lit(t.as_slice(), "1");
    let key = c[0].clone();
    let output = c[1].clone();
    Ok(Phrase { key, output, dialects, default })
}

/// The mark a (trimmed) mark name stands for.
pub open spec fn mark_of(name: Seq<char>) -> Option<char> {
    if name == "fatha"@ {
        Some(FATHA)
    } else if name == "damma"@ {
        Some(DAMMA)
    } else if name == "kasra"@ {
        Some(KASRA)
    } else {
        None
    }
}

pub open spec fn mark_view(m: (String, u8, char)) -> (Seq<char>, u8, char) {
    (m.0@, m.1, m.2)
}

/// One row of `vowel_marks.tsv`: the mark is checked before the dialects.
pub open spec fn spec_parse_mark(line: int, c: Seq<Seq<char>>) -> Result<(Seq<char>, u8, char), Seq<char>> {
    let f = "vowel_marks.tsv"@;
    if c.len() < 3 {
        Err(row_err(f, line, "expected 3 columns"@))
    } else {
        match mark_of(spec_trim(c[2])) {
            None => Err(row_err(f, line, "bad mark '"@ + spec_trim(c[2]) + "'"@)),
            Some(mark) => match spec_parse_mask(c[1]) {
                Err(e) => Err(row_err(f, line, e)),
                Ok(m) => Ok((c[0], m, mark)),
            },
        }
    }
}

pub fn parse_mark(line: usize, c: &Vec<String>) -> (r: Result<(String, u8, char), String>)
    ensures
        match r {
            Ok(x) => spec_parse_mark(line as int, strings_view(c@)) == Ok::<(Seq<char>, u8, char), Seq<char>>(mark_view(x)),
            Err(e) => spec_parse_mark(line as int, strings_view(c@)) == Err::<(Seq<char>, u8, char), Seq<char>>(e@),
        },
{
    let ghost cv = strings_view(c@);
    let f = "vowel_marks.tsv";
    if c.len() < 3 {
        return Err(row_error_str(f, line, "expected 3 columns"));
    }
    assert(cv[0] == c@[0]@ && cv[1] == c@[1]@ && cv[2] == c@[2]@);
    let t = trim_chars(chars_of(c[2].as_str()).as_slice());
    let mark = if eq_lit(t.as_slice(), "fatha") {
        FATHA
    } else if eq_lit(t.as_slice(), "damma") {
        DAMMA
    } else if eq_lit(t.as_slice(), "kasra") {
        KASRA
    } else {
        let m = quoted_message("bad mark '", t.as_slice());
        return Err(row_error(f, line, m.as_slice()));
    };
    let mask = match parse_mask(c[1].as_str()) {
        Ok(m) => m,
        Err(e) => {
            return Err(row_error(f, line, chars_of(e.as_str()).as_slice()));
        },
    };
    Ok((c[0].clone(), mask, mark))
}

/// Whether row `k`'s weight reads as a number (a row the list does not reach has none).
pub open spec fn weight_at(ok: Seq<bool>, k: int) -> bool {
    0 <= k < ok.len() && ok[k]
}

/// The first `k` rule rows, or the message for the first bad one.
pub open spec fn rules_upto(rows: Seq<(int, Seq<Seq<char>>)>, ok: Seq<bool>, k: int) -> Result<Seq<RuleView>, Seq<char>>
    decreases k,
{
    if k <= 0 {
        Ok(Seq::empty())
    } else {
        match rules_upto(rows, ok, k - 1) {
            Err(e) => Err(e),
            Ok(l) => match spec_parse_rule(rows[k - 1].0, rows[k - 1].1, weight_at(ok, k - 1)) {
                Err(e) => Err(e),
                Ok(r) => Ok(l.push(r)),
            },
        }
    }
}

pub open spec fn phrase_rows_upto(rows: Seq<(int, Seq<Seq<char>>)>, k: int) -> Result<Seq<PhraseView>, Seq<char>>
    decreases k,
{
    if k <= 0 {
        Ok(Seq::empty())
    } else {
        match phrase_rows_upto(rows, k - 1) {
            Err(e) => Err(e),
            Ok(l) => match spec_parse_phrase(rows[k - 1].0, rows[k - 1].1) {
                Err(e) => Err(e),
                Ok(r) => Ok(l.push(r)),
            },
        }
    }
}

pub open spec fn mark_rows_upto(rows: Seq<(int, Seq<Seq<char>>)>, k: int) -> Result<Seq<(Seq<char>, u8, char)>, Seq<char>>
    decreases k,
{
    if k <= 0 {
        Ok(Seq::empty())
    } else {
        match mark_rows_upto(rows, k - 1) {
            Err(e) => Err(e),
            Ok(l) => match spec_parse_mark(rows[k - 1].0, rows[k - 1].1) {
                Err(e) => Err(e),
                Ok(r) => Ok(l.push(r)),
            },
        }
    }
}

proof fn lemma_rules_err_stays(rows: Seq<(int, Seq<Seq<char>>)>, ok: Seq<bool>, k: int, j: int)
    requires
        0 <= k <= j,
        rules_upto(rows, ok, k) is Err,
    ensures
        rules_upto(rows, ok, j) == rules_upto(rows, ok, k),
    decreases j - k,
{
    if j > k {
        lemma_rules_err_stays(rows, ok, k, j - 1);
    }
}

proof fn lemma_phrases_err_stays(rows: Seq<(int, Seq<Seq<char>>)>, k: int, j: int)
    requires
        0 <= k <= j,
        phrase_rows_upto(rows, k) is Err,
    ensures
        phrase_rows_upto(rows, j) == phrase_rows_upto(rows, k),
    decreases j - k,
{
    if j > k {
        lemma_phrases_err_stays(rows, k, j - 1);
    }
}

proof fn lemma_marks_err_stays(rows: Seq<(int, Seq<Seq<char>>)>, k: int, j: int)
    requires
        0 <= k <= j,
        mark_rows_upto(rows, k) is Err,
    ensures
        mark_rows_upto(rows, j) == mark_rows_upto(rows, k),
    decreases j - k,
{
    if j > k {
        lemma_marks_err_stays(rows, k, j - 1);
    }
}

pub open spec fn rules_view(v: Seq<RuleRow>) -> Seq<RuleView> {
    v.map_values(|r: RuleRow| r@)
}

pub open spec fn phrases_view(v: Seq<Phrase>) -> Seq<PhraseView> {
    v.map_values(|p: Phrase| p@)
}

pub open spec fn marks_view(v: Seq<(String, u8, char)>) -> Seq<(Seq<char>, u8, char)> {
    v.map_values(|m: (String, u8, char)| mark_view(m))
}

/// The three seed files read in turn (rules, then phrases, then vowel marks); the first bad row
/// gives the message.
pub open spec fn spec_parse_tables(
    mappings: Seq<char>,
    phrases: Seq<char>,
    vowel_marks: Seq<char>,
    weight_ok: Seq<bool>,
) -> Result<(Seq<RuleView>, Seq<PhraseView>, Seq<(Seq<char>, u8, char)>), Seq<char>> {
    let mr = spec_data_lines(mappings);
    let pr = spec_data_lines(phrases);
    let vr = spec_data_lines(vowel_marks);
    match rules_upto(mr, weight_ok, mr.len() as int) {
        Err(e) => Err(e),
        Ok(rs) => match phrase_rows_upto(pr, pr.len() as int) {
            Err(e) => Err(e),
            Ok(ps) => match mark_rows_upto(vr, vr.len() as int) {
                Err(e) => Err(e),
                Ok(ms) => Ok((rs, ps, ms)),
            },
        },
    }
}

fn parse_rules(mappings: &str, weight_ok: &Vec<bool>) -> (r: Result<Vec<RuleRow>, String>)
    ensures
        match r {
            Ok(v) => rules_upto(spec_data_lines(mappings@), weight_ok@, spec_data_lines(mappings@).len() as int)
                == Ok::<Seq<RuleView>, Seq<char>>(rules_view(v@)),
            Err(e) => rules_upto(spec_data_lines(mappings@), weight_ok@, spec_data_lines(mappings@).len() as int)
                == Err::<Seq<RuleView>, Seq<char>>(e@),
        },
{
    let rows = data_lines(mappings);
    let ghost rv = rows_view(rows@);
    let mut out: Vec<RuleRow> = Vec::new();
    assert(rules_view(out@) =~= Seq::<RuleView>::empty());
    let mut k: usize = 0;
    while k < rows.len()
        invariant
            k <= rows@.len(),
            rv == rows_view(rows@),
            rv == spec_data_lines(mappings@),
            rules_upto(rv, weight_ok@, k as int) == Ok::<Seq<RuleView>, Seq<char>>(rules_view(out@)),
        decreases rows@.len() - k,
    {
        assert(rv[k as int] == (rows@[k as int].0 as int, strings_view(rows@[k as int].1@)));
        let ok = k < weight_ok.len() && weight_ok[k];
        match parse_rule(rows[k].0, &rows[k].1, ok) {
            Ok(x) => {
                let ghost before = rules_view(out@);
                out.push(x);
                assert(rules_view(out@) =~= before.push(x@));
            },
            Err(e) => {
                proof {
                    lemma_rules_err_stays(rv, weight_ok@, k + 1, rv.len() as int);
                }
                return Err(e);
            },
        }
        k += 1;
    }
    Ok(out)
}

fn parse_phrases(phrases: &str) -> (r: Result<Vec<Phrase>, String>)
    ensures
        match r {
            Ok(v) => phrase_rows_upto(spec_data_lines(phrases@), spec_data_lines(phrases@).len() as int)
                == Ok::<Seq<PhraseView>, Seq<char>>(phrases_view(v@)),
            Err(e) => phrase_rows_upto(spec_data_lines(phrases@), spec_data_lines(phrases@).len() as int)
                == Err::<Seq<PhraseView>, Seq<char>>(e@),
        },
{
    let rows = data_lines(phrases);
    let ghost rv = rows_view(rows@);
    let mut out: Vec<Phrase> = Vec::new();
    assert(phrases_view(out@) =~= Seq::<PhraseView>::empty());
    let mut k: usize = 0;
    while k < rows.len()
        invariant
            k <= rows@.len(),
            rv == rows_view(rows@),
            rv == spec_data_lines(phrases@),
            phrase_rows_upto(rv, k as int) == Ok::<Seq<PhraseView>, Seq<char>>(phrases_view(out@)),
        decreases rows@.len() - k,
    {
        assert(rv[k as int] == (rows@[k as int].0 as int, strings_view(rows@[k as int].1@)));
        match parse_phrase(rows[k].0, &rows[k].1) {
            Ok(x) => {
                let ghost before = phrases_view(out@);
                out.push(x);
                assert(phrases_view(out@) =~= before.push(x@));
            },
            Err(e) => {
                proof {
                    lemma_phrases_err_stays(rv, k + 1, rv.len() as int);
                }
                return Err(e);
            },
        }
        k += 1;
    }
    Ok(out)
}

fn parse_marks(vowel_marks: &str) -> (r: Result<Vec<(String, u8, char)>, String>)
    ensures
        match r {
            Ok(v) => mark_rows_upto(spec_data_lines(vowel_marks@), spec_data_lines(vowel_marks@).len() as int)
                == Ok::<Seq<(Seq<char>, u8, char)>, Seq<char>>(marks_view(v@)),
            Err(e) => mark_rows_upto(spec_data_lines(vowel_marks@), spec_data_lines(vowel_marks@).len() as int)
                == Err::<Seq<(Seq<char>, u8, char)>, Seq<char>>(e@),
        },
{
    let rows = data_lines(vowel_marks);
    let ghost rv = rows_view(rows@);
    let mut out: Vec<(String, u8, char)> = Vec::new();
    assert(marks_view(out@) =~= Seq::<(Seq<char>, u8, char)>::empty());
    let mut k: usize = 0;
    while k < rows.len()
        invariant
            k <= rows@.len(),
            rv == rows_view(rows@),
            rv == spec_data_lines(vowel_marks@),
            mark_rows_upto(rv, k as int) == Ok::<Seq<(Seq<char>, u8, char)>, Seq<char>>(marks_view(out@)),
        decreases rows@.len() - k,
    {
        assert(rv[k as int] == (rows@[k as int].0 as int, strings_view(rows@[k as int].1@)));
        match parse_mark(rows[k].0, &rows[k].1) {
            Ok(x) => {
                let ghost before = marks_view(out@);
                out.push(x);
                assert(marks_view(out@) =~= before.push(mark_view(x)));
            },
            Err(e) => {
                proof {
                    lemma_marks_err_stays(rv, k + 1, rv.len() as int);
                }
                return Err(e);
            },
        }
        k += 1;
    }
    Ok(out)
}

impl SeedTables {
    /// Read the rule, phrase and vowel-mark files. `weight_ok[k]` tells whether the weight of
    /// the `k`-th rule row reads as a number (the caller parses the floats). Errors carry
    /// `file:line`.
    pub fn parse(mappings: &str, phrases: &str, vowel_marks: &str, weight_ok: &Vec<bool>) -> (r: Result<
        SeedTables,
        String,
    >)
        ensures
            match r {
                Ok(t) => spec_parse_tables(mappings@, phrases@, vowel_marks@, weight_ok@) == Ok::<
                    (Seq<RuleView>, Seq<PhraseView>, Seq<(Seq<char>, u8, char)>),
                    Seq<char>,
                >((rules_view(t.rules@), phrases_view(t.phrases@), marks_view(t.vowel_marks.rows@))),
                Err(e) => spec_parse_tables(mappings@, phrases@, vowel_marks@, weight_ok@) == Err::<
                    (Seq<RuleView>, Seq<PhraseView>, Seq<(Seq<char>, u8, char)>),
                    Seq<char>,
                >(e@),
            },
    {
        let rules = match parse_rules(mappings, weight_ok) {
            Ok(v) => v,
            Err(e) => {
                return Err(e);
            },
        };
        let ps = match parse_phrases(phrases) {
            Ok(v) => v,
            Err(e) => {
                return Err(e);
            },
        };
        let rows = match parse_marks(vowel_marks) {
            Ok(v) => v,
            Err(e) => {
                return Err(e);
            },
        };
        Ok(SeedTables { rules, phrases: ps, vowel_marks: VowelMarks { rows } })
    }
}

// ---------------------------------------------------------------------------------------------
// Writing rows back.

/// The names of the flags set in `f`, in column order.
pub open spec fn flag_list(f: u8) -> Seq<Seq<char>> {
    let a: Seq<Seq<char>> = if f & F_VOWEL != 0 {
        seq!["VOWEL"@]
    } else {
        Seq::empty()
    };
    let b = if f & F_GEM != 0 {
        a.push("GEM"@)
    } else {
        a
    };
    let c = if f & F_TANWEEN != 0 {
        b.push("TANWEEN"@)
    } else {
        b
    };
    if f & F_ARTICLE != 0 {
        c.push("ARTICLE"@)
    } else {
        c
    }
}

/// A flags column: the names of the flags set, comma-separated, or `-` for none.
pub open spec fn spec_flag_names(f: u8) -> Seq<char> {
    if flag_list(f).len() == 0 {
        "-"@
    } else {
        join_on(flag_list(f), ',')
    }
}

fn push_flag(out: &mut String, any: bool, name: &str)
    ensures
        final(out)@ == if any {
            old(out)@ + seq![','] + name@
        } else {
            old(out)@ + name@
        },
{
    if any {
        push_char(out, ',');
    }
    push_str(out, name);
}

pub fn flag_names(f: u8) -> (r: String)
    ensures
        r@ == spec_flag_names(f),
{
    let mut out = String::new();
    let mut any = false;
    let ghost mut ws: Seq<Seq<char>> = Seq::empty();
    if f & F_VOWEL != 0 {
        push_flag(&mut out, any, "VOWEL");
        proof {
            ws = ws.push("VOWEL"@);
        }
        any = true;
    }
    assert(any == (ws.len() > 0) && out@ =~= (if any { join_on(ws, ',') } else { Seq::empty() }));
    if f & F_GEM != 0 {
        let ghost prev = ws;
        push_flag(&mut out, any, "GEM");
        proof {
            ws = ws.push("GEM"@);
            assert(ws.drop_last() =~= prev);
        }
        any = true;
    }
    assert(any == (ws.len() > 0) && out@ =~= (if any { join_on(ws, ',') } else { Seq::empty() }));
    if f & F_TANWEEN != 0 {
        let ghost prev = ws;
        push_flag(&mut out, any, "TANWEEN");
        proof {
            ws = ws.push("TANWEEN"@);
            assert(ws.drop_last() =~= prev);
        }
        any = true;
    }
    assert(any == (ws.len() > 0) && out@ =~= (if any { join_on(ws, ',') } else { Seq::empty() }));
    if f & F_ARTICLE != 0 {
        let ghost prev = ws;
        push_flag(&mut out, any, "ARTICLE");
        proof {
            ws = ws.push("ARTICLE"@);
            assert(ws.drop_last() =~= prev);
        }
        any = true;
    }
    assert(any == (ws.len() > 0) && out@ =~= (if any { join_on(ws, ',') } else { Seq::empty() }));
    assert(ws =~= flag_list(f));
    if !any {
        push_str(&mut out, "-");
    }
    assert(out@ =~= spec_flag_names(f));
    out
}

/// Text without `sep`, joined with `sep`, splits back into the same pieces.
proof fn lemma_split_join(ws: Seq<Seq<char>>, sep: char)
    requires
        ws.len() >= 1,
        forall|i: int| 0 <= i < ws.len() ==> free_of(#[trigger] ws[i], sep),
    ensures
        split_on(join_on(ws, sep), sep) == ws,
        join_on(ws, sep).len() >= ws.last().len(),
    decreases ws.len(),
{
    assert(free_of(ws[ws.len() - 1], sep));
    if ws.len() == 1 {
        lemma_split_plain(Seq::empty(), ws[0], sep);
        assert(Seq::<char>::empty() + ws[0] =~= ws[0]);
        assert(split_on(ws[0], sep) =~= ws);
    } else {
        let prev = ws.drop_last();
        assert forall|i: int| 0 <= i < prev.len() implies free_of(#[trigger] prev[i], sep) by {
            assert(prev[i] == ws[i]);
        }
        lemma_split_join(prev, sep);
        let a = join_on(prev, sep).push(sep);
        assert(a.drop_last() =~= join_on(prev, sep));
        assert(join_on(ws, sep) =~= a + ws.last());
        lemma_split_plain(a, ws.last(), sep);
        assert(Seq::<char>::empty() + ws.last() =~= ws.last());
        assert(split_on(a + ws.last(), sep) =~= ws);
    }
}

proof fn lemma_flags_prefix(ws: Seq<Seq<char>>, x: Seq<char>, k: int)
    requires
        0 <= k <= ws.len(),
    ensures
        flags_of(ws.push(x), k) == flags_of(ws, k),
    decreases k,
{
    if k > 0 {
        lemma_flags_prefix(ws, x, k - 1);
        assert(ws.push(x)[k - 1] == ws[k - 1]);
    }
}

proof fn lemma_flags_push(ws: Seq<Seq<char>>, x: Seq<char>, b: u8)
    requires
        flag_of(spec_trim(x)) == Some(b),
    ensures
        flags_of(ws.push(x), ws.len() + 1int) == match flags_of(ws, ws.len() as int) {
            Ok(g) => Ok::<u8, Seq<char>>(g | b),
            Err(e) => Err(e),
        },
{
    lemma_flags_prefix(ws, x, ws.len() as int);
    assert(ws.push(x)[ws.len() as int] == x);
}

/// A flags column as written reads back as the flags written (the four defined ones).
pub proof fn law_flag_names_read_back(f: u8)
    ensures
        spec_parse_flags(spec_flag_names(f)) == Ok::<u8, Seq<char>>(f & 15),
{
    reveal_strlit("VOWEL");
    reveal_strlit("GEM");
    reveal_strlit("TANWEEN");
    reveal_strlit("ARTICLE");
    reveal_strlit("-");
    let v = "VOWEL"@;
    let g = "GEM"@;
    let t = "TANWEEN"@;
    let a = "ARTICLE"@;
    lemma_trim_same(v);
    lemma_trim_same(g);
    lemma_trim_same(t);
    lemma_trim_same(a);
    let w0: Seq<Seq<char>> = Seq::empty();
    let w1 = if f & F_VOWEL != 0 { w0.push(v) } else { w0 };
    let w2 = if f & F_GEM != 0 { w1.push(g) } else { w1 };
    let w3 = if f & F_TANWEEN != 0 { w2.push(t) } else { w2 };
    let w4 = if f & F_ARTICLE != 0 { w3.push(a) } else { w3 };
    assert(w4 =~= flag_list(f));
    let g1: u8 = if f & 1 != 0 { 0u8 | 1u8 } else { 0u8 };
    let g2: u8 = if f & 2 != 0 { g1 | 2u8 } else { g1 };
    let g3: u8 = if f & 4 != 0 { g2 | 4u8 } else { g2 };
    let g4: u8 = if f & 8 != 0 { g3 | 8u8 } else { g3 };
    if f & F_VOWEL != 0 {
        lemma_flags_push(w0, v, 1);
    }
    if f & F_GEM != 0 {
        lemma_flags_push(w1, g, 2);
    }
    if f & F_TANWEEN != 0 {
        lemma_flags_push(w2, t, 4);
    }
    if f & F_ARTICLE != 0 {
        lemma_flags_push(w3, a, 8);
    }
    assert(flags_of(w4, w4.len() as int) == Ok::<u8, Seq<char>>(g4));
    assert(g4 == f & 15) by (bit_vector)
        requires
            g1 == (if f & 1 != 0 { 0u8 | 1u8 } else { 0u8 }),
            g2 == (if f & 2 != 0 { g1 | 2u8 } else { g1 }),
            g3 == (if f & 4 != 0 { g2 | 4u8 } else { g2 }),
            g4 == (if f & 8 != 0 { g3 | 8u8 } else { g3 }),
    ;
    if w4.len() > 0 {
        assert forall|i: int| 0 <= i < w4.len() implies free_of(#[trigger] w4[i], ',') by {
            assert(w4[i] == v || w4[i] == g || w4[i] == t || w4[i] == a);
        }
        lemma_split_join(w4, ',');
        assert(w4.last().len() >= 3);
    }
}

/// The Latin letter an internal symbol is written as: emphatics back to capitals.
pub open spec fn spec_latin_char(c: char) -> char {
    if c == EMPH_T {
        'T'
    } else if c == EMPH_S {
        'S'
    } else if c == EMPH_D {
        'D'
    } else if c == EMPH_Z {
        'Z'
    } else if c == EMPH_H {
        'H'
    } else {
        c
    }
}

pub fn latin_char(c: char) -> (r: char)
    ensures
        r == spec_latin_char(c),
{
    if c == EMPH_T {
        'T'
    } else if c == EMPH_S {
        'S'
    } else if c == EMPH_D {
        'D'
    } else if c == EMPH_Z {
        'Z'
    } else if c == EMPH_H {
        'H'
    } else {
        c
    }
}

/// A Latin chunk of symbols as written in the rule file.
pub fn latin_text(chunk: &[char]) -> (r: String)
    ensures
        r@ == chunk@.map_values(|c: char| spec_latin_char(c)),
{
    let mut out = String::new();
    let mut i: usize = 0;
    while i < chunk.len()
        invariant
            i <= chunk@.len(),
            out@ =~= chunk@.take(i as int).map_values(|c: char| spec_latin_char(c)),
        decreases chunk@.len() - i,
    {
        push_char(&mut out, latin_char(chunk[i]));
        i += 1;
    }
    assert(chunk@.take(chunk@.len() as int) =~= chunk@);
    out
}

/// A chunk of symbols written as Latin reads back as the same symbols, provided it holds no raw
/// capital `T`, `S`, `D`, `Z` or `H` (a normalized chunk holds their symbols instead).
pub proof fn law_latin_text_reads_back(chunk: Seq<char>)
    requires
        forall|i: int| 0 <= i < chunk.len() ==> spec_emphatic_symbol(#[trigger] chunk[i]) is None,
    ensures
        spec_parse_latin(chunk.map_values(|c: char| spec_latin_char(c))) == chunk,
{
    assert(spec_parse_latin(chunk.map_values(|c: char| spec_latin_char(c))) =~= chunk);
}

} // verus!
