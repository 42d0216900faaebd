//! Self-training inputs: corpus specifications and the word types of a monolingual Arabizi line.
use vstd::prelude::*;

use crate::dialect::Dialect;
use crate::keyed::{
    has_key, key_pos, keys_of, lemma_key_pos, lemma_lookup_put, lemma_put_sorted, lemma_sorted_find,
    lookup, position, put, skeys, sorted_keys, str_lt,
};
use crate::text::{chars_of, string_of};
use crate::user::{counts_view, pick_lt, picks_ascending, sort_picks, Pick};

verus! {

/// One monolingual corpus: where it is, its dialect, and the source id that labels its pairs.
#[derive(Debug)]
pub struct Corpus {
    pub path: String,
    pub dialect: Dialect,
    pub source: String,
}

/// Index of the last character before `n` that is `a` or `b`, or -1.
pub open spec fn last_of(s: Seq<char>, n: int, a: char, b: char) -> int
    decreases n,
{
    if n <= 0 {
        -1
    } else if s[n - 1] == a || s[n - 1] == b {
        n - 1
    } else {
        last_of(s, n - 1, a, b)
    }
}

/// The folder holding the file at `path` (the segment before the last separator), if any.
pub open spec fn folder_of(path: Seq<char>) -> Option<Seq<char>> {
    let q = last_of(path, path.len() as int, '/', '\\');
    if q < 0 {
        None
    } else {
        let r = last_of(path, q, '/', '\\');
        Some(path.subrange(r + 1, q))
    }
}

/// The source id of a `<path>:<DIALECT>` spec: the file's folder name, or "mono".
pub open spec fn default_source(path: Seq<char>) -> Seq<char> {
    match folder_of(path) {
        Some(f) => if f.len() > 0 {
            f
        } else {
            "mono"@
        },
        None => "mono"@,
    }
}

/// The corpus `<path>:<DIALECT>[:<source id>]` names, as (path, dialect, source); split from the
/// right, since Windows paths contain ':'.
pub open spec fn spec_parse_spec(s: Seq<char>) -> Option<(Seq<char>, Dialect, Seq<char>)> {
    let p = last_of(s, s.len() as int, ':', ':');
    if p < 0 {
        None
    } else {
        let rest = s.subrange(0, p);
        let last = s.subrange(p + 1, s.len() as int);
        match Dialect::spec_parse(last) {
            Some(d) => Some((rest, d, default_source(rest))),
            None => {
                let p2 = last_of(rest, rest.len() as int, ':', ':');
                if p2 < 0 {
                    None
                } else {
                    match Dialect::spec_parse(rest.subrange(p2 + 1, rest.len() as int)) {
                        Some(d) => Some((rest.subrange(0, p2), d, last)),
                        None => None,
                    }
                }
            },
        }
    }
}

proof fn lemma_last_of_range(s: Seq<char>, n: int, a: char, b: char)
    requires
        n <= s.len(),
    ensures
        -1 <= last_of(s, n, a, b) < if n > 0 { n } else { 0 },
        last_of(s, n, a, b) >= 0 ==> (s[last_of(s, n, a, b)] == a || s[last_of(s, n, a, b)] == b),
    decreases n,
{
    if n > 0 && !(s[n - 1] == a || s[n - 1] == b) {
        lemma_last_of_range(s, n - 1, a, b);
    }
}

/// `last_of(s, n, a, b)`, as an index if there is one.
fn rfind(s: &[char], n: usize, a: char, b: char) -> (r: Option<usize>)
    requires
        n <= s@.len(),
    ensures
        match r {
            Some(i) => i == last_of(s@, n as int, a, b) && i < n,
            None => last_of(s@, n as int, a, b) < 0,
        },
{
    let mut k: usize = n;
    while k > 0
        invariant
            k <= n <= s@.len(),
            last_of(s@, n as int, a, b) == last_of(s@, k as int, a, b),
        decreases k,
    {
        if s[k - 1] == a || s[k - 1] == b {
            return Some(k - 1);
        }
        k -= 1;
    }
    None
}

fn sub_string(s: &[char], a: usize, b: usize) -> (r: String)
    requires
        a <= b <= s@.len(),
    ensures
        r@ == s@.subrange(a as int, b as int),
{
    let part = vstd::slice::slice_subrange(s, a, b);
    string_of(part)
}

/// Parses `--text <path>:<DIALECT>[:<source id>]`. Without a source id the source is the folder
/// holding the file (`raw/<id>/arabizi.txt`, either separator), or "mono".
pub fn parse_spec(spec: &str) -> (r: Option<Corpus>)
    ensures
        match spec_parse_spec(spec@) {
            Some((p, d, src)) => r matches Some(c) && c.path@ == p && c.dialect == d && c.source@ == src,
            None => r is None,
        },
{
    let cs = chars_of(spec);
    let n = cs.len();
    let p = match rfind(cs.as_slice(), n, ':', ':') {
        Some(p) => p,
        None => return None,
    };
    let rest = vstd::slice::slice_subrange(cs.as_slice(), 0, p);
    let last = vstd::slice::slice_subrange(cs.as_slice(), p + 1, n);
    match Dialect::parse_chars(last) {
        Some(d) => {
            let path = string_of(rest);
            let source = match rfind(rest, p, '/', '\\') {
                None => "mono".to_string(),
                Some(q) => {
                    proof {
                        lemma_last_of_range(rest@, q as int, '/', '\\');
                    }
                    let start = match rfind(rest, q, '/', '\\') {
                        Some(r) => r + 1,
                        None => 0,
                    };
                    if start < q {
                        sub_string(rest, start, q)
                    } else {
                        "mono".to_string()
                    }
                },
            };
            proof {
                reveal_strlit("mono");
            }
            Some(Corpus { path, dialect: d, source })
        },
        None => {
            let p2 = match rfind(rest, p, ':', ':') {
                Some(p2) => p2,
                None => return None,
            };
            let code = vstd::slice::slice_subrange(rest, p2 + 1, p);
            match Dialect::parse_chars(code) {
                Some(d) => Some(
                    Corpus { path: sub_string(rest, 0, p2), dialect: d, source: string_of(last) },
                ),
                None => None,
            }
        },
    }
}

/// `c` lower-cased (ASCII only).
pub open spec fn ascii_lower(c: char) -> char {
    if 'A' <= c <= 'Z' {
        ((c as u32) + 32) as char
    } else {
        c
    }
}

/// A character that belongs to a word type once lower-cased: `[a-z0-9']`.
pub open spec fn is_type_char(c: char) -> bool {
    ('a' <= c <= 'z') || ('0' <= c <= '9') || c == '\''
}

/// A finished run is a word type when it has 3 to 20 characters and at least one letter.
pub open spec fn keeps(w: Seq<char>) -> bool {
    3 <= w.len() <= 20 && exists|i: int| 0 <= i < w.len() && 'a' <= #[trigger] w[i] <= 'z'
}

/// After the first `i` characters of a line: the types found and the run being read.
pub open spec fn types_upto(cs: Seq<char>, i: int) -> (Seq<Seq<char>>, Seq<char>)
    decreases i,
{
    if i <= 0 {
        (Seq::empty(), Seq::empty())
    } else {
        let (found, run) = types_upto(cs, i - 1);
        let c = ascii_lower(cs[i - 1]);
        if is_type_char(c) {
            (found, run.push(c))
        } else if keeps(run) {
            (found.push(run), Seq::empty())
        } else {
            (found, Seq::empty())
        }
    }
}

/// The word types of one line, in order: lower-cased runs of `[a-z0-9']` with 3 to 20
/// characters and at least one letter.
pub open spec fn line_types(cs: Seq<char>) -> Seq<Seq<char>> {
    let (found, run) = types_upto(cs, cs.len() as int);
    if keeps(run) {
        found.push(run)
    } else {
        found
    }
}

fn has_letter(w: &Vec<char>) -> (r: bool)
    ensures
        r == exists|i: int| 0 <= i < w@.len() && 'a' <= #[trigger] w@[i] <= 'z',
{
    let mut i: usize = 0;
    while i < w.len()
        invariant
            i <= w@.len(),
            forall|j: int| 0 <= j < i ==> !('a' <= #[trigger] w@[j] <= 'z'),
        decreases w.len() - i,
    {
        if 'a' <= w[i] && w[i] <= 'z' {
            return true;
        }
        i += 1;
    }
    false
}

fn lower_ascii(c: char) -> (r: char)
    ensures
        r == ascii_lower(c),
{
    if 'A' <= c && c <= 'Z' {
        let b: u8 = (c as u8) + 32;
        b as char
    } else {
        c
    }
}

/// The word types of `line` (see `line_types`), each as a `String`.
pub fn word_types(line: &str) -> (r: Vec<String>)
    ensures
        r@.map_values(|w: String| w@) == line_types(line@),
{
    let cs = chars_of(line);
    let mut found: Vec<String> = Vec::new();
    let mut run: Vec<char> = Vec::new();
    let mut i: usize = 0;
    while i < cs.len()
        invariant
            i <= cs@.len(),
            cs@ == line@,
            (found@.map_values(|w: String| w@), run@) == types_upto(cs@, i as int),
        decreases cs.len() - i,
    {
        let c = lower_ascii(cs[i]);
        let ghost before = found@.map_values(|w: String| w@);
        if ('a' <= c && c <= 'z') || ('0' <= c && c <= '9') || c == '\'' {
            run.push(c);
        } else {
            if 3 <= run.len() && run.len() <= 20 && has_letter(&run) {
                let w = string_of(run.as_slice());
                found.push(w);
                assert(found@.map_values(|w: String| w@) =~= before.push(run@));
            }
            run = Vec::new();
        }
        i += 1;
    }
    if 3 <= run.len() && run.len() <= 20 && has_letter(&run) {
        let ghost before = found@.map_values(|w: String| w@);
        let w = string_of(run.as_slice());
        found.push(w);
        assert(found@.map_values(|w: String| w@) =~= before.push(run@));
    }
    found
}

// ---------------------------------------------------------------------------------------------
// Counting a corpus's word types and ranking them.

/// How often `w` occurs in the tally `s` (0 when it does not).
pub open spec fn seen(s: Seq<(Seq<char>, u32)>, w: Seq<char>) -> nat {
    match lookup(s, w) {
        Some(n) => n as nat,
        None => 0,
    }
}

/// `s` with one more occurrence of `w`.
pub open spec fn bump(s: Seq<(Seq<char>, u32)>, w: Seq<char>) -> Seq<(Seq<char>, u32)> {
    put(s, w, (seen(s, w) + 1) as u32)
}

/// `s` after counting each of `ws`, in order.
pub open spec fn tally(s: Seq<(Seq<char>, u32)>, ws: Seq<Seq<char>>) -> Seq<(Seq<char>, u32)>
    decreases ws.len(),
{
    if ws.len() == 0 {
        s
    } else {
        bump(tally(s, ws.drop_last()), ws.last())
    }
}

/// A tally is kept in type order, each type once.
pub open spec fn tally_wf(s: Seq<(Seq<char>, u32)>) -> bool {
    sorted_keys(skeys(s))
}

/// Every count of `s`, and a new one, can grow by `n` without leaving `u32`.
pub open spec fn room(s: Seq<(Seq<char>, u32)>, n: int) -> bool {
    &&& n <= u32::MAX
    &&& forall|i: int| 0 <= i < s.len() ==> (#[trigger] s[i]).1 + n <= u32::MAX
}

/// `a` ranks before `b`: more frequent first, then in type order.
pub open spec fn ranks_before(a: (Seq<char>, u32), b: (Seq<char>, u32)) -> bool {
    a.1 > b.1 || (a.1 == b.1 && str_lt(a.0, b.0))
}

/// `r` is the ranking of the types of `s` seen at least `min_count` times, cut after `limit`:
/// in rank order, taken from `s`, and every such type left out ranks after all of `r`, which
/// then holds `limit` types.
pub open spec fn is_ranking(s: Seq<(Seq<char>, u32)>, min_count: u32, limit: nat, r: Seq<(Seq<char>, u32)>) -> bool {
    &&& forall|i: int, j: int| 0 <= i < j < r.len() ==> ranks_before(#[trigger] r[i], #[trigger] r[j])
    &&& forall|i: int| 0 <= i < r.len() ==> s.contains(#[trigger] r[i]) && r[i].1 >= min_count
    &&& r.len() <= limit
    &&& forall|e: (Seq<char>, u32)|
        #![trigger s.contains(e), r.contains(e)]
        s.contains(e) && e.1 >= min_count && !r.contains(e) ==> r.len() == limit && forall|i: int|
            0 <= i < r.len() ==> ranks_before(#[trigger] r[i], e)
}

/// The word types of a corpus with how often each was seen.
pub struct TypeTally {
    entries: Vec<(String, u32)>,
}

impl View for TypeTally {
    type V = Seq<(Seq<char>, u32)>;

    closed spec fn view(&self) -> Seq<(Seq<char>, u32)> {
        counts_view(self.entries@)
    }
}

/// The place of a type in a ranking: (`u32::MAX` - count, index, index).
spec fn type_pick(v: Seq<(Seq<char>, u32)>, min_count: u32, t: Pick) -> bool {
    &&& t.1 < v.len()
    &&& t.2 == t.1
    &&& v[t.1 as int].1 >= min_count
    &&& t.0 == (u32::MAX - v[t.1 as int].1) as u64
}

proof fn lemma_pick_ranks(v: Seq<(Seq<char>, u32)>, min_count: u32, a: Pick, b: Pick)
    requires
        tally_wf(v),
        type_pick(v, min_count, a),
        type_pick(v, min_count, b),
        pick_lt(a, b),
    ensures
        ranks_before(v[a.1 as int], v[b.1 as int]),
{
    if a.0 == b.0 {
        assert(skeys(v)[a.1 as int] == v[a.1 as int].0);
        assert(skeys(v)[b.1 as int] == v[b.1 as int].0);
    }
}

/// Putting a value no larger than `b` into a tally whose counts are at most `b` keeps them so.
proof fn lemma_put_bound(s: Seq<(Seq<char>, u32)>, k: Seq<char>, v: u32, b: int)
    requires
        forall|i: int| 0 <= i < s.len() ==> (#[trigger] s[i]).1 <= b,
        v <= b,
    ensures
        forall|i: int| 0 <= i < put(s, k, v).len() ==> (#[trigger] put(s, k, v)[i]).1 <= b,
{
    lemma_key_pos(skeys(s), k);
    let p = key_pos(skeys(s), k);
    let r = put(s, k, v);
    assert forall|i: int| 0 <= i < r.len() implies (#[trigger] r[i]).1 <= b by {
        if has_key(skeys(s), k) {
            if i != p {
                assert(r[i] == s[i]);
            }
        } else if i < p {
            assert(r[i] == s[i]);
        } else if i > p {
            assert(r[i] == s[i - 1]);
        }
    }
}

fn copy_text(s: &String) -> (r: String)
    ensures
        r@ == s@,
{
    let cs = chars_of(s.as_str());
    string_of(cs.as_slice())
}

impl TypeTally {
    /// An empty tally.
    pub fn new() -> (t: TypeTally)
        ensures
            t@ == Seq::<(Seq<char>, u32)>::empty(),
            tally_wf(t@),
    {
        let t = TypeTally { entries: Vec::new() };
        assert(t@ =~= Seq::<(Seq<char>, u32)>::empty());
        t
    }

    /// How often `w` was seen.
    pub fn count(&self, w: &str) -> (r: u32)
        requires
            tally_wf(self@),
        ensures
            r == seen(self@, w@),
    {
        let cs = chars_of(w);
        proof {
            assert(keys_of(self.entries@) =~= skeys(self@));
        }
        let (p, found) = position(&self.entries, cs.as_slice());
        if found {
            self.entries[p].1
        } else {
            0
        }
    }

    /// Whether every count can still grow by `n`.
    pub fn has_room(&self, n: usize) -> (r: bool)
        ensures
            r == room(self@, n as int),
    {
        let mut i: usize = 0;
        while i < self.entries.len()
            invariant
                i <= self.entries@.len(),
                forall|j: int| 0 <= j < i ==> (#[trigger] self@[j]).1 + n <= u32::MAX,
            decreases self.entries.len() - i,
        {
            assert(self@[i as int].1 == self.entries@[i as int].1);
            if n as u64 > (u32::MAX - self.entries[i].1) as u64 {
                return false;
            }
            i += 1;
        }
        n as u64 <= u32::MAX as u64
    }

    fn add_one(&mut self, w: &String)
        requires
            tally_wf(old(self)@),
            seen(old(self)@, w@) < u32::MAX,
        ensures
            tally_wf(final(self)@),
            final(self)@ == bump(old(self)@, w@),
    {
        let ghost v = self@;
        let ghost c1 = (seen(v, w@) + 1) as u32;
        let cs = chars_of(w.as_str());
        proof {
            assert(keys_of(self.entries@) =~= skeys(v));
            lemma_put_sorted(v, w@, c1);
            lemma_key_pos(skeys(v), w@);
        }
        let (p, found) = position(&self.entries, cs.as_slice());
        let mut c: u32 = 1;
        if found {
            let e = self.entries.remove(p);
            c = e.1 + 1;
        }
        self.entries.insert(p, (copy_text(w), c));
        proof {
            if found {
                assert(self@ =~= v.update(p as int, (w@, c1)));
            } else {
                assert(self@ =~= v.insert(p as int, (w@, c1)));
            }
        }
    }

    /// Counts each of `words` once more, in order.
    pub fn add_types(&mut self, words: &Vec<String>)
        requires
            tally_wf(old(self)@),
            room(old(self)@, words@.len() as int),
        ensures
            tally_wf(final(self)@),
            final(self)@ == tally(old(self)@, words@.map_values(|w: String| w@)),
    {
        let ghost old_v = self@;
        let ghost ws = words@.map_values(|w: String| w@);
        let n = words.len();
        let mut j: usize = 0;
        assert(ws.take(0) =~= Seq::<Seq<char>>::empty());
        while j < n
            invariant
                n == words@.len() == ws.len(),
                ws == words@.map_values(|w: String| w@),
                j <= n,
                tally_wf(self@),
                self@ == tally(old_v, ws.take(j as int)),
                room(self@, (n - j) as int),
            decreases n - j,
        {
            let ghost v = self@;
            let w = &words[j];
            proof {
                lemma_key_pos(skeys(v), w@);
                if has_key(skeys(v), w@) {
                    let p = key_pos(skeys(v), w@);
                    assert(v[p].1 + (n - j) <= u32::MAX);
                    assert(seen(v, w@) == v[p].1);
                }
                assert(seen(v, w@) + (n - j) <= u32::MAX);
            }
            self.add_one(w);
            proof {
                let b = u32::MAX - (n - j - 1);
                lemma_put_bound(v, w@, (seen(v, w@) + 1) as u32, b);
                assert(ws.take(j + 1).drop_last() =~= ws.take(j as int));
                assert(ws.take(j + 1).last() == w@);
            }
            j += 1;
        }
        assert(ws.take(n as int) =~= ws);
    }

    /// The types seen at least `min_count` times, most frequent first (ties in type order), at
    /// most `limit` of them.
    pub fn ranked(&self, min_count: u32, limit: usize) -> (r: Vec<(String, u32)>)
        requires
            tally_wf(self@),
        ensures
            is_ranking(self@, min_count, limit as nat, counts_view(r@)),
    {
        let ghost v = self@;
        let n = self.entries.len();
        let mut picks: Vec<Pick> = Vec::new();
        let mut i: usize = 0;
        while i < n
            invariant
                i <= n == self.entries@.len() == v.len(),
                v == self@,
                forall|k: int| 0 <= k < picks@.len() ==> type_pick(v, min_count, #[trigger] picks@[k]) && picks@[k].1 < i,
                forall|a: int, b: int| 0 <= a < b < picks@.len() ==> (#[trigger] picks@[a]).1 < (#[trigger] picks@[b]).1,
                forall|t: Pick| type_pick(v, min_count, t) && t.1 < i ==> picks@.contains(t),
            decreases n - i,
        {
            let c = self.entries[i].1;
            assert(v[i as int].1 == c);
            let ghost before = picks@;
            if c >= min_count {
                let t: Pick = ((u32::MAX - c) as u64, i, i);
                picks.push(t);
                assert(picks@[picks@.len() - 1] == t);
            }
            proof {
                assert forall|t: Pick| type_pick(v, min_count, t) && t.1 < i + 1 implies picks@.contains(t) by {
                    if t.1 == i {
                        assert(picks@[picks@.len() - 1] == t);
                    } else {
                        assert(before.contains(t));
                        let k = choose|k: int| 0 <= k < before.len() && before[k] == t;
                        assert(picks@[k] == t);
                    }
                }
            }
            i += 1;
        }
        let ghost unsorted = picks@;
        proof {
            assert(unsorted.no_duplicates()) by {
                assert forall|a: int, b: int| 0 <= a < unsorted.len() && 0 <= b < unsorted.len() && a != b implies unsorted[a] != unsorted[b] by {
                    if a < b {
                        assert(unsorted[a].1 < unsorted[b].1);
                    } else {
                        assert(unsorted[b].1 < unsorted[a].1);
                    }
                }
            }
            unsorted.lemma_multiset_has_no_duplicates();
        }
        sort_picks(&mut picks);
        let ghost order = picks@;
        proof {
            broadcast use vstd::seq_lib::group_to_multiset_ensures;
            order.lemma_multiset_has_no_duplicates_conv();
            assert forall|k: int| 0 <= k < order.len() implies type_pick(v, min_count, #[trigger] order[k]) by {
                assert(order.contains(order[k]));
                assert(order.to_multiset().count(order[k]) > 0);
                assert(unsorted.contains(order[k]));
            }
            assert forall|t: Pick| type_pick(v, min_count, t) implies order.contains(t) by {
                assert(unsorted.contains(t));
                assert(unsorted.to_multiset().count(t) > 0);
            }
            assert forall|a: int, b: int| 0 <= a < b < order.len() implies pick_lt(#[trigger] order[a], #[trigger] order[b]) by {
                assert(order[a] != order[b]);
            }
        }
        let take = if limit < picks.len() {
            limit
        } else {
            picks.len()
        };
        let mut out: Vec<(String, u32)> = Vec::new();
        let mut k: usize = 0;
        while k < take
            invariant
                k <= take <= picks@.len() == order.len(),
                order == picks@,
                v == self@,
                v.len() == self.entries@.len(),
                forall|a: int| 0 <= a < order.len() ==> type_pick(v, min_count, #[trigger] order[a]),
                out@.len() == k,
                forall|a: int| 0 <= a < k ==> #[trigger] counts_view(out@)[a] == v[order[a].1 as int],
            decreases take - k,
        {
            let t = picks[k];
            assert(type_pick(v, min_count, order[k as int]));
            let e = &self.entries[t.1];
            let ghost before = counts_view(out@);
            out.push((copy_text(&e.0), e.1));
            proof {
                assert(counts_view(out@) =~= before.push(v[t.1 as int]));
            }
            k += 1;
        }
        let ghost rv = counts_view(out@);
        proof {
            assert forall|a: int, b: int| 0 <= a < b < rv.len() implies ranks_before(#[trigger] rv[a], #[trigger] rv[b]) by {
                lemma_pick_ranks(v, min_count, order[a], order[b]);
            }
            assert forall|a: int| 0 <= a < rv.len() implies v.contains(#[trigger] rv[a]) && rv[a].1 >= min_count by {
                assert(v[order[a].1 as int] == rv[a]);
            }
            assert forall|e: (Seq<char>, u32)|
                v.contains(e) && e.1 >= min_count && !rv.contains(e) implies rv.len() == limit && forall|a: int|
                    0 <= a < rv.len() ==> ranks_before(#[trigger] rv[a], e) by {
                let jx = choose|jx: int| 0 <= jx < v.len() && v[jx] == e;
                let t: Pick = ((u32::MAX - e.1) as u64, jx as usize, jx as usize);
                assert(type_pick(v, min_count, t));
                assert(order.contains(t));
                let q = choose|q: int| 0 <= q < order.len() && order[q] == t;
                if q < rv.len() {
                    assert(rv[q] == e);
                    assert(rv.contains(e));
                }
                assert forall|a: int| 0 <= a < rv.len() implies ranks_before(#[trigger] rv[a], e) by {
                    lemma_pick_ranks(v, min_count, order[a], order[q]);
                }
            }
        }
        out
    }
}

/// How many of `ws` are `k`.
pub open spec fn occurrences(ws: Seq<Seq<char>>, k: Seq<char>) -> nat
    decreases ws.len(),
{
    if ws.len() == 0 {
        0
    } else {
        occurrences(ws.drop_last(), k) + if ws.last() == k { 1nat } else { 0nat }
    }
}

proof fn lemma_occurrences_bound(ws: Seq<Seq<char>>, k: Seq<char>)
    ensures
        occurrences(ws, k) <= ws.len(),
    decreases ws.len(),
{
    if ws.len() > 0 {
        lemma_occurrences_bound(ws.drop_last(), k);
    }
}

/// Putting `k` leaves what is stored under every other key as it was.
proof fn lemma_seen_put_other(s: Seq<(Seq<char>, u32)>, k: Seq<char>, v: u32, w: Seq<char>)
    requires
        tally_wf(s),
        w != k,
    ensures
        seen(put(s, k, v), w) == seen(s, w),
{
    lemma_put_sorted(s, k, v);
    lemma_key_pos(skeys(s), k);
    let p = key_pos(skeys(s), k);
    let r = put(s, k, v);
    let ks = skeys(s);
    let kr = skeys(r);
    lemma_sorted_find(ks, w);
    lemma_sorted_find(kr, w);
    // index of each old entry in `r`
    if has_key(ks, w) {
        let i = key_pos(ks, w);
        let ir = if has_key(ks, k) || i < p { i } else { i + 1 };
        assert(r[ir] == s[i]);
        assert(kr[ir] == w);
        assert(kr.contains(w));
    } else {
        if kr.contains(w) {
            let j = choose|j: int| 0 <= j < kr.len() && kr[j] == w;
            if has_key(ks, k) {
                if j == p {
                } else {
                    assert(ks[j] == w);
                }
            } else if j < p {
                assert(ks[j] == w);
            } else if j > p {
                assert(ks[j - 1] == w);
            }
            assert(false);
        }
    }
}

/// Counting: after `tally`, the count of every type is its count before plus the number of
/// times it occurs among the words counted.
pub proof fn law_tally_counts(s: Seq<(Seq<char>, u32)>, ws: Seq<Seq<char>>, k: Seq<char>)
    requires
        tally_wf(s),
        room(s, ws.len() as int),
    ensures
        tally_wf(tally(s, ws)),
        seen(tally(s, ws), k) == seen(s, k) + occurrences(ws, k),
    decreases ws.len(),
{
    if ws.len() > 0 {
        let ws0 = ws.drop_last();
        let w = ws.last();
        law_tally_counts(s, ws0, k);
        law_tally_counts(s, ws0, w);
        let t = tally(s, ws0);
        lemma_occurrences_bound(ws, w);
        lemma_key_pos(skeys(s), w);
        if has_key(skeys(s), w) {
            assert(s[key_pos(skeys(s), w)].1 + ws.len() <= u32::MAX);
        }
        assert(occurrences(ws, w) == occurrences(ws0, w) + 1);
        assert(seen(t, w) + 1 <= u32::MAX);
        lemma_put_sorted(t, w, (seen(t, w) + 1) as u32);
        if w == k {
            lemma_lookup_put(t, w, (seen(t, w) + 1) as u32);
        } else {
            lemma_seen_put_other(t, w, (seen(t, w) + 1) as u32, k);
        }
    }
}

} // verus!
