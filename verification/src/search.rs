//! Lexicon trie lookups: children by label, paths by codes, Latin chunks by bytes and the
//! compiled rules that apply to them; doubled consonants; and the hamza-insensitive spelling key.
use vstd::prelude::*;
use crate::data::records::{Chunk, Node, Rule};
use crate::display::relaxed;
use crate::normalize::{emphatic_symbol, spec_emphatic_symbol};
use crate::seed::{F_VOWEL, POS_ANY};
use crate::text::{chars_of, push_char, str_eq};

verus! {

/// One step of a search path: the chunk of Latin read and the Arabic written.
#[derive(Clone, Debug)]
pub struct BackEdge {
    pub prev_back: u32,
    pub latin: Vec<char>,
    pub arabic: Vec<u8>,
    pub flags: u8,
}

// ---------------------------------------------------------------------------------------------
// Children.

/// Node `j` is a child of node `p` with edge label `label`.
pub open spec fn is_child(nodes: Seq<Node>, p: int, j: int, label: u8) -> bool {
    &&& 0 <= p < nodes.len()
    &&& nodes[p].child_count > 0
    &&& nodes[p].first_child <= j < nodes[p].first_child + nodes[p].child_count
    &&& nodes[p].first_child + nodes[p].child_count <= nodes.len()
    &&& nodes[j].label == label
}

/// The children of node `p` lie in the table and are sorted by label.
pub open spec fn children_sorted(nodes: Seq<Node>, p: int) -> bool {
    0 <= p < nodes.len() ==> forall|i: int, j: int|
        nodes[p].first_child <= i < j < nodes[p].first_child + nodes[p].child_count && j
            < nodes.len() ==> nodes[i].label <= nodes[j].label
}

/// Binary search of the nodes `lo..hi` for one labelled `label`.
pub open spec fn search_children(nodes: Seq<Node>, lo: int, hi: int, label: u8) -> Option<int>
    decreases hi - lo,
{
    if lo >= hi {
        None
    } else {
        let mid = lo + (hi - lo) / 2;
        if nodes[mid].label == label {
            Some(mid)
        } else if nodes[mid].label < label {
            search_children(nodes, mid + 1, hi, label)
        } else {
            search_children(nodes, lo, mid, label)
        }
    }
}

/// The child of node `p` labelled `label` that the search finds: `None` when `p` is outside
/// the table, has no children, or its children do not lie in the table.
pub open spec fn spec_find_child(nodes: Seq<Node>, p: int, label: u8) -> Option<int> {
    if p < 0 || p >= nodes.len() || nodes[p].child_count == 0 {
        None
    } else {
        let start = nodes[p].first_child as int;
        let count = nodes[p].child_count as int;
        if start > nodes.len() || count > nodes.len() - start {
            None
        } else {
            search_children(nodes, start, start + count, label)
        }
    }
}

/// Find a child of `parent_idx` matching `label` in `nodes` (binary search over its children).
pub fn find_child(nodes: &[Node], parent_idx: u32, label: u8) -> (r: Option<u32>)
    requires
        nodes@.len() <= u32::MAX,
    ensures
        match r {
            Some(j) => spec_find_child(nodes@, parent_idx as int, label) == Some(j as int),
            None => spec_find_child(nodes@, parent_idx as int, label) is None,
        },
        r matches Some(j) ==> is_child(nodes@, parent_idx as int, j as int, label),
        children_sorted(nodes@, parent_idx as int) ==> (r is None <==> !exists|j: int|
            is_child(nodes@, parent_idx as int, j, label)),
{
    let p = parent_idx as usize;
    if p >= nodes.len() {
        return None;
    }
    let parent = nodes[p];
    if parent.child_count == 0 {
        return None;
    }
    let start = parent.first_child as usize;
    if start > nodes.len() || parent.child_count as usize > nodes.len() - start {
        return None;
    }
    let end = start + parent.child_count as usize;
    let mut lo = start;
    let mut hi = end;
    while lo < hi
        invariant
            start <= lo <= hi <= end <= nodes@.len(),
            p < nodes@.len(),
            p == parent_idx as usize,
            nodes@.len() <= u32::MAX,
            nodes@[p as int] == parent,
            start == parent.first_child,
            end == start + parent.child_count,
            parent.child_count > 0,
            search_children(nodes@, lo as int, hi as int, label) == spec_find_child(nodes@, p as int, label),
            children_sorted(nodes@, p as int) ==> forall|i: int| start <= i < lo ==> nodes@[i].label < label,
            children_sorted(nodes@, p as int) ==> forall|i: int| hi <= i < end ==> nodes@[i].label > label,
        decreases hi - lo,
    {
        let mid = lo + (hi - lo) / 2;
        let l = nodes[mid].label;
        if l == label {
            let j = mid as u32;
            assert(j as int == mid as int);
            assert(p as int == parent_idx as int);
            assert(is_child(nodes@, parent_idx as int, j as int, label));
            return Some(j);
        } else if l < label {
            lo = mid + 1;
        } else {
            hi = mid;
        }
    }
    None
}

/// Node `n` is reached from `from` by following edges labelled `codes`.
pub open spec fn reaches(nodes: Seq<Node>, from: int, codes: Seq<u8>, n: int) -> bool
    decreases codes.len(),
{
    if codes.len() == 0 {
        n == from
    } else {
        exists|m: int| #[trigger] is_child(nodes, from, m, codes[0]) && reaches(nodes, m, codes.drop_first(), n)
    }
}

proof fn lemma_reaches_extend(nodes: Seq<Node>, from: int, codes: Seq<u8>, m: int, label: u8, n: int)
    requires
        reaches(nodes, from, codes, m),
        is_child(nodes, m, n, label),
    ensures
        reaches(nodes, from, codes.push(label), n),
    decreases codes.len(),
{
    if codes.len() == 0 {
        assert(codes.push(label).drop_first() =~= Seq::<u8>::empty());
        assert(is_child(nodes, from, n, codes.push(label)[0]));
        assert(reaches(nodes, n, codes.push(label).drop_first(), n));
    } else {
        let k = choose|k: int| #[trigger] is_child(nodes, from, k, codes[0]) && reaches(nodes, k, codes.drop_first(), m);
        lemma_reaches_extend(nodes, k, codes.drop_first(), m, label, n);
        assert(codes.push(label).drop_first() =~= codes.drop_first().push(label));
        assert(is_child(nodes, from, k, codes.push(label)[0]));
        assert(reaches(nodes, k, codes.push(label).drop_first(), n));
    }
}

/// Following `codes` from node `from` child by child, as `find_child` finds them.
pub open spec fn spec_walk(nodes: Seq<Node>, from: int, codes: Seq<u8>) -> Option<int>
    decreases codes.len(),
{
    if codes.len() == 0 {
        Some(from)
    } else {
        match spec_find_child(nodes, from, codes[0]) {
            None => None,
            Some(n) => spec_walk(nodes, n, codes.drop_first()),
        }
    }
}

proof fn lemma_walk_push(nodes: Seq<Node>, from: int, codes: Seq<u8>, label: u8)
    ensures
        spec_walk(nodes, from, codes.push(label)) == match spec_walk(nodes, from, codes) {
            None => None,
            Some(m) => spec_find_child(nodes, m, label),
        },
    decreases codes.len(),
{
    if codes.len() == 0 {
        assert(codes.push(label).drop_first() =~= Seq::<u8>::empty());
        if let Some(n) = spec_find_child(nodes, from, label) {
            assert(spec_walk(nodes, n, Seq::empty()) == Some(n));
        }
    } else {
        assert(codes.push(label).drop_first() =~= codes.drop_first().push(label));
        assert(codes.push(label)[0] == codes[0]);
        match spec_find_child(nodes, from, codes[0]) {
            None => {},
            Some(n) => {
                lemma_walk_push(nodes, n, codes.drop_first(), label);
            },
        }
    }
}

/// Walking is following `find_child` code by code: no codes stay at the node, one code is one
/// `find_child`, and a walk along `a` then `b` is the walk along `a + b`.
pub proof fn law_walk_is_repeated_find_child(nodes: Seq<Node>, from: int, a: Seq<u8>, b: Seq<u8>, x: u8)
    ensures
        spec_walk(nodes, from, Seq::empty()) == Some(from),
        spec_walk(nodes, from, seq![x]) == spec_find_child(nodes, from, x),
        spec_walk(nodes, from, a + b) == match spec_walk(nodes, from, a) {
            None => None,
            Some(m) => spec_walk(nodes, m, b),
        },
    decreases a.len(),
{
    assert(seq![x].drop_first() =~= Seq::<u8>::empty());
    if let Some(n) = spec_find_child(nodes, from, x) {
        assert(spec_walk(nodes, n, Seq::empty()) == Some(n));
    }
    if a.len() > 0 {
        assert((a + b).drop_first() =~= a.drop_first() + b);
        assert((a + b)[0] == a[0]);
        match spec_find_child(nodes, from, a[0]) {
            None => {},
            Some(n) => {
                law_walk_is_repeated_find_child(nodes, n, a.drop_first(), b, x);
            },
        }
    } else {
        assert(a + b =~= b);
    }
}

proof fn lemma_walk_none(nodes: Seq<Node>, from: int, codes: Seq<u8>, k: int)
    requires
        0 <= k <= codes.len(),
        spec_walk(nodes, from, codes.take(k)) is None,
    ensures
        spec_walk(nodes, from, codes) is None,
{
    law_walk_is_repeated_find_child(nodes, from, codes.take(k), codes.skip(k), 0);
    assert(codes.take(k) + codes.skip(k) =~= codes);
}

/// Walk trie nodes along a sequence of Arabic letter codes.
pub fn walk_codes(nodes: &[Node], curr: u32, codes: &[u8]) -> (r: Option<u32>)
    requires
        nodes@.len() <= u32::MAX,
    ensures
        match r {
            Some(n) => spec_walk(nodes@, curr as int, codes@) == Some(n as int),
            None => spec_walk(nodes@, curr as int, codes@) is None,
        },
        r matches Some(n) ==> reaches(nodes@, curr as int, codes@, n as int),
        r is None ==> exists|k: int, m: u32|
            0 <= k < codes@.len() && reaches(nodes@, curr as int, codes@.take(k), m as int) && (
            children_sorted(nodes@, m as int) ==> !exists|j: int| is_child(nodes@, m as int, j, codes@[k])),
{
    let mut c = curr;
    let mut i: usize = 0;
    assert(codes@.take(0) =~= Seq::<u8>::empty());
    while i < codes.len()
        invariant
            i <= codes@.len(),
            nodes@.len() <= u32::MAX,
            reaches(nodes@, curr as int, codes@.take(i as int), c as int),
            spec_walk(nodes@, curr as int, codes@.take(i as int)) == Some(c as int),
        decreases codes@.len() - i,
    {
        proof {
            lemma_walk_push(nodes@, curr as int, codes@.take(i as int), codes@[i as int]);
            assert(codes@.take(i as int).push(codes@[i as int]) =~= codes@.take(i + 1));
        }
        match find_child(nodes, c, codes[i]) {
            None => {
                proof {
                    lemma_walk_none(nodes@, curr as int, codes@, i + 1);
                }
                assert(reaches(nodes@, curr as int, codes@.take(i as int), c as int));
                return None;
            },
            Some(n) => {
                proof {
                    lemma_reaches_extend(nodes@, curr as int, codes@.take(i as int), c as int, codes@[i as int], n as int);
                }
                c = n;
            },
        }
        i += 1;
    }
    assert(codes@.take(codes@.len() as int) =~= codes@);
    Some(c)
}

// ---------------------------------------------------------------------------------------------
// Chunks.

/// Lexicographic comparison of byte strings: negative, zero or positive.
pub open spec fn lex_order(a: Seq<u8>, b: Seq<u8>) -> int
    decreases a.len(),
{
    if a.len() == 0 && b.len() == 0 {
        0
    } else if a.len() == 0 {
        -1
    } else if b.len() == 0 {
        1
    } else if a[0] < b[0] {
        -1
    } else if a[0] > b[0] {
        1
    } else {
        lex_order(a.drop_first(), b.drop_first())
    }
}

proof fn lemma_lex_eq(a: Seq<u8>, b: Seq<u8>)
    ensures
        (lex_order(a, b) == 0) == (a == b),
        lex_order(a, b) == -lex_order(b, a),
        -1 <= lex_order(a, b) <= 1,
    decreases a.len(),
{
    if a.len() == 0 && b.len() == 0 {
        assert(a =~= b);
    }
    if a.len() > 0 && b.len() > 0 && a[0] == b[0] {
        lemma_lex_eq(a.drop_first(), b.drop_first());
        if a.drop_first() == b.drop_first() {
            assert(a =~= seq![a[0]] + a.drop_first());
            assert(b =~= seq![b[0]] + b.drop_first());
        }
    }
}

proof fn lemma_lex_trans(a: Seq<u8>, b: Seq<u8>, c: Seq<u8>)
    ensures
        lex_order(a, b) <= 0 && lex_order(b, c) < 0 ==> lex_order(a, c) < 0,
        lex_order(a, b) < 0 && lex_order(b, c) <= 0 ==> lex_order(a, c) < 0,
    decreases a.len(),
{
    lemma_lex_eq(a, b);
    lemma_lex_eq(b, c);
    lemma_lex_eq(a, c);
    if a.len() > 0 && b.len() > 0 && c.len() > 0 {
        lemma_lex_trans(a.drop_first(), b.drop_first(), c.drop_first());
    }
}

/// The Latin bytes a chunk entry holds.
pub open spec fn chunk_key(c: Chunk) -> Seq<u8> {
    c.latin@.take(if c.len < 4 { c.len as int } else { 4 })
}

/// The chunk table is sorted by Latin bytes.
pub open spec fn chunks_sorted(chunks: Seq<Chunk>) -> bool {
    forall|i: int, j: int| 0 <= i < j < chunks.len() ==> lex_order(chunk_key(chunks[i]), chunk_key(chunks[j])) <= 0
}

fn compare(a: &[u8], b: &[u8]) -> (r: i8)
    ensures
        r == lex_order(a@, b@),
{
    let mut i: usize = 0;
    assert(a@.skip(0) =~= a@);
    assert(b@.skip(0) =~= b@);
    while i < a.len() && i < b.len()
        invariant
            i <= a@.len(),
            i <= b@.len(),
            a@.take(i as int) == b@.take(i as int),
            lex_order(a@, b@) == lex_order(a@.skip(i as int), b@.skip(i as int)),
        decreases a@.len() - i,
    {
        if a[i] < b[i] {
            return -1;
        } else if a[i] > b[i] {
            return 1;
        }
        assert(a@.skip(i as int).drop_first() =~= a@.skip(i + 1));
        assert(b@.skip(i as int).drop_first() =~= b@.skip(i + 1));
        assert(a@.take(i + 1) =~= a@.take(i as int).push(a@[i as int]));
        assert(b@.take(i + 1) =~= b@.take(i as int).push(b@[i as int]));
        i += 1;
    }
    if i == a.len() && i == b.len() {
        0
    } else if i == a.len() {
        -1
    } else {
        1
    }
}

/// Binary search the chunk table for the entry holding `latin_bytes`.
pub fn find_chunk<'a>(chunks: &'a [Chunk], latin_bytes: &[u8]) -> (r: Option<&'a Chunk>)
    ensures
        r matches Some(c) ==> exists|i: int| 0 <= i < chunks@.len() && chunks@[i] == *c && chunk_key(*c) == latin_bytes@,
        chunks_sorted(chunks@) ==> (r is None <==> !exists|i: int|
            0 <= i < chunks@.len() && #[trigger] chunk_key(chunks@[i]) == latin_bytes@),
{
    let mut lo: usize = 0;
    let mut hi: usize = chunks.len();
    while lo < hi
        invariant
            lo <= hi <= chunks@.len(),
            chunks_sorted(chunks@) ==> forall|i: int| 0 <= i < lo ==> lex_order(chunk_key(#[trigger] chunks@[i]), latin_bytes@) < 0,
            chunks_sorted(chunks@) ==> forall|i: int| hi <= i < chunks@.len() ==> lex_order(chunk_key(#[trigger] chunks@[i]), latin_bytes@) > 0,
        decreases hi - lo,
    {
        let mid = lo + (hi - lo) / 2;
        let c = &chunks[mid];
        let n: usize = if c.len < 4 { c.len as usize } else { 4 };
        let key = vstd::slice::slice_subrange(c.latin.as_slice(), 0, n);
        assert(key@ =~= chunk_key(*c));
        let o = compare(key, latin_bytes);
        proof {
            lemma_lex_eq(chunk_key(*c), latin_bytes@);
        }
        if o == 0 {
            return Some(c);
        } else if o < 0 {
            proof {
                if chunks_sorted(chunks@) {
                    assert forall|i: int| 0 <= i < mid + 1 implies lex_order(chunk_key(#[trigger] chunks@[i]), latin_bytes@) < 0 by {
                        if i < mid {
                            lemma_lex_trans(chunk_key(chunks@[i]), chunk_key(*c), latin_bytes@);
                        }
                    }
                }
            }
            lo = mid + 1;
        } else {
            proof {
                if chunks_sorted(chunks@) {
                    assert forall|i: int| mid <= i < chunks@.len() implies lex_order(chunk_key(#[trigger] chunks@[i]), latin_bytes@) > 0 by {
                        if i > mid {
                            lemma_lex_eq(chunk_key(chunks@[i]), latin_bytes@);
                            lemma_lex_eq(chunk_key(*c), chunk_key(chunks@[i]));
                            lemma_lex_eq(latin_bytes@, chunk_key(*c));
                            lemma_lex_trans(latin_bytes@, chunk_key(*c), chunk_key(chunks@[i]));
                            lemma_lex_eq(latin_bytes@, chunk_key(chunks@[i]));
                        }
                    }
                }
            }
            hi = mid;
        }
    }
    proof {
        if chunks_sorted(chunks@) {
            assert forall|i: int| 0 <= i < chunks@.len() implies #[trigger] chunk_key(chunks@[i]) != latin_bytes@ by {
                lemma_lex_eq(chunk_key(chunks@[i]), latin_bytes@);
            }
        }
    }
    None
}

// ---------------------------------------------------------------------------------------------
// Spelling.

/// Spelling key that ignores the hamza seat on alef (أ إ آ → ا). Arabizi never encodes it.
pub fn hamza_key(word: &str) -> (r: String)
    ensures
        r@ == word@.map_values(|c: char| relaxed(c)),
{
    let cs = chars_of(word);
    let mut out = String::new();
    let mut i: usize = 0;
    while i < cs.len()
        invariant
            i <= cs@.len(),
            out@ =~= cs@.take(i as int).map_values(|c: char| relaxed(c)),
        decreases cs@.len() - i,
    {
        let c = cs[i];
        push_char(&mut out, if c == '\u{0623}' || c == '\u{0625}' || c == '\u{0622}' {
            '\u{0627}'
        } else {
            c
        });
        i += 1;
    }
    assert(cs@.take(cs@.len() as int) =~= cs@);
    out
}

// ---------------------------------------------------------------------------------------------
// Compiled rules.

/// The byte a Latin symbol is stored as in the chunk table: emphatics mapped, then the low byte.
pub open spec fn latin_byte(c: char) -> u8 {
    let s = match spec_emphatic_symbol(c) {
        Some(e) => e,
        None => c,
    };
    ((s as u32) % 256) as u8
}

pub fn latin_bytes(chunk_syms: &[char]) -> (r: Vec<u8>)
    ensures
        r@ == chunk_syms@.map_values(|c: char| latin_byte(c)),
{
    let mut out: Vec<u8> = Vec::new();
    let mut i: usize = 0;
    while i < chunk_syms.len()
        invariant
            i <= chunk_syms@.len(),
            out@ =~= chunk_syms@.take(i as int).map_values(|c: char| latin_byte(c)),
        decreases chunk_syms@.len() - i,
    {
        let c = chunk_syms[i];
        let s = match emphatic_symbol(c) {
            Some(e) => e,
            None => c,
        };
        out.push(((s as u32) % 256) as u8);
        i += 1;
    }
    assert(chunk_syms@.take(chunk_syms@.len() as int) =~= chunk_syms@);
    out
}

/// The end of chunk `c`'s rule range, within the rule table.
pub open spec fn rule_end(c: Chunk, n: int) -> int {
    if c.first_rule + c.rule_count < n {
        c.first_rule + c.rule_count
    } else {
        n
    }
}

/// The start of chunk `c`'s rule range, within the rule table.
pub open spec fn rule_start(c: Chunk, n: int) -> int {
    if c.first_rule < rule_end(c, n) {
        c.first_rule as int
    } else {
        rule_end(c, n)
    }
}

/// Some rule of chunk `c` for positions `pos` names its positions.
pub open spec fn chunk_has_explicit(rules: Seq<Rule>, c: Chunk, pos: u8) -> bool {
    exists|i: int| rule_start(c, rules.len() as int) <= i < rule_end(c, rules.len() as int)
        && #[trigger] rules[i].pos_mask & pos != 0 && rules[i].pos_mask != POS_ANY
}

/// Rule `i` of chunk `c` is chosen for positions `pos`: "most specific wins", so rules that name
/// their positions come before (and shut out) rules for any position.
pub open spec fn rule_chosen(rules: Seq<Rule>, c: Chunk, pos: u8, i: int) -> bool {
    rules[i].pos_mask & pos != 0 && (chunk_has_explicit(rules, c, pos) ==> rules[i].pos_mask
        != POS_ANY)
}

/// The indices of the chosen rules of chunk `c` below `n`, in order.
pub open spec fn chosen_upto(rules: Seq<Rule>, c: Chunk, pos: u8, n: int) -> Seq<int>
    decreases n - rule_start(c, rules.len() as int),
{
    if n <= rule_start(c, rules.len() as int) {
        Seq::empty()
    } else {
        let p = chosen_upto(rules, c, pos, n - 1);
        if rule_chosen(rules, c, pos, n - 1) {
            p.push(n - 1)
        } else {
            p
        }
    }
}

pub open spec fn chosen_rules(rules: Seq<Rule>, c: Chunk, pos: u8) -> Seq<int> {
    chosen_upto(rules, c, pos, rule_end(c, rules.len() as int))
}

/// The compiled rules for the Latin chunk stored as `latin_bytes` at position set `pos`, as
/// indices into `rules`; `None` when the chunk table has no such chunk (the caller then falls
/// back to the seed tables).
pub fn compiled_rules(chunks: &[Chunk], rules: &[Rule], latin_bytes: &[u8], pos: u8) -> (r: Option<Vec<usize>>)
    ensures
        r matches Some(v) ==> exists|k: int|
            0 <= k < chunks@.len() && chunk_key(#[trigger] chunks@[k]) == latin_bytes@
                && v@.map_values(|i: usize| i as int) == chosen_rules(rules@, chunks@[k], pos),
        chunks_sorted(chunks@) ==> (r is None <==> !exists|k: int|
            0 <= k < chunks@.len() && #[trigger] chunk_key(chunks@[k]) == latin_bytes@),
{
    let c = match find_chunk(chunks, latin_bytes) {
        None => {
            return None;
        },
        Some(c) => c,
    };
    let n = rules.len();
    let sum = c.first_rule as usize + c.rule_count as usize;
    let end = if sum < n { sum } else { n };
    let start = if (c.first_rule as usize) < end { c.first_rule as usize } else { end };
    let ghost cc = *c;
    assert(end == rule_end(cc, n as int) && start == rule_start(cc, n as int));
    let mut explicit = false;
    let mut i = start;
    while i < end
        invariant
            start <= i <= end <= n,
            n == rules@.len(),
            start == rule_start(cc, n as int),
            end == rule_end(cc, n as int),
            explicit == exists|j: int| start <= j < i && #[trigger] rules@[j].pos_mask & pos != 0
                && rules@[j].pos_mask != POS_ANY,
        decreases end - i,
    {
        if rules[i].pos_mask & pos != 0 && rules[i].pos_mask != POS_ANY {
            explicit = true;
        }
        assert(rules@[i as int].pos_mask & pos != 0 && rules@[i as int].pos_mask != POS_ANY ==> explicit);
        i += 1;
    }
    let mut out: Vec<usize> = Vec::new();
    let mut i = start;
    while i < end
        invariant
            start <= i <= end <= n,
            n == rules@.len(),
            start == rule_start(cc, n as int),
            end == rule_end(cc, n as int),
            explicit == chunk_has_explicit(rules@, cc, pos),
            out@.map_values(|k: usize| k as int) == chosen_upto(rules@, cc, pos, i as int),
        decreases end - i,
    {
        if rules[i].pos_mask & pos != 0 && (!explicit || rules[i].pos_mask != POS_ANY) {
            let ghost before = out@.map_values(|k: usize| k as int);
            out.push(i);
            assert(out@.map_values(|k: usize| k as int) =~= before.push(i as int));
        }
        i += 1;
    }
    Some(out)
}

pub open spec fn is_vowel_sym(c: char) -> bool {
    c == 'a' || c == 'e' || c == 'i' || c == 'o' || c == 'u'
}

/// A two-symbol chunk that doubles one consonant (`ll`, `bb`, `77`): it may be read as that
/// letter once, geminated.
pub fn doubled_consonant(chunk_syms: &[char]) -> (r: bool)
    ensures
        r == (chunk_syms@.len() == 2 && chunk_syms@[0] == chunk_syms@[1] && !is_vowel_sym(
            chunk_syms@[0],
        ) && chunk_syms@[0] != '\''),
{
    if chunk_syms.len() != 2 || chunk_syms[0] != chunk_syms[1] {
        return false;
    }
    let c = chunk_syms[0];
    !(c == 'a' || c == 'e' || c == 'i' || c == 'o' || c == 'u' || c == '\'')
}

/// A one-symbol step that repeats the previous step's consonant, Latin and Arabic alike: reading
/// a doubled consonant as two letters, which pays the doubling penalty.
pub fn repeats_previous(prev_latin: &[char], prev_arabic: &[u8], chunk_syms: &[char], arabic: &[u8], flags: u8) -> (r: bool)
    ensures
        r == (chunk_syms@.len() == 1 && prev_latin@ == chunk_syms@ && prev_arabic@ == arabic@
            && flags & F_VOWEL == 0 && !is_vowel_sym(chunk_syms@[0])),
{
    if chunk_syms.len() != 1 || flags & F_VOWEL != 0 {
        return false;
    }
    let c = chunk_syms[0];
    if c == 'a' || c == 'e' || c == 'i' || c == 'o' || c == 'u' {
        return false;
    }
    crate::keyed::chars_same(prev_latin, chunk_syms) && bytes_same(prev_arabic, arabic)
}

fn bytes_same(a: &[u8], b: &[u8]) -> (r: bool)
    ensures
        r == (a@ == b@),
{
    if a.len() != b.len() {
        return false;
    }
    let mut i: usize = 0;
    while i < a.len()
        invariant
            i <= a@.len(),
            a@.len() == b@.len(),
            forall|j: int| 0 <= j < i ==> a@[j] == b@[j],
        decreases a@.len() - i,
    {
        if a[i] != b[i] {
            return false;
        }
        i += 1;
    }
    assert(a@ =~= b@);
    true
}

// ---------------------------------------------------------------------------------------------
// Hamza spelling variants.

pub open spec fn spelling_key(w: Seq<char>) -> Seq<char> {
    w.map_values(|c: char| relaxed(c))
}

/// No word before `i` has word `i`'s hamza-insensitive spelling.
pub open spec fn first_of_spelling(keys: Seq<Seq<char>>, i: int) -> bool {
    forall|l: int| 0 <= l < i ==> #[trigger] keys[l] != keys[i]
}

/// The indices below `n` of the words spelled as `key`, in order.
pub open spec fn spelled_upto(keys: Seq<Seq<char>>, key: Seq<char>, n: int) -> Seq<int>
    decreases n,
{
    if n <= 0 {
        Seq::empty()
    } else {
        let p = spelled_upto(keys, key, n - 1);
        if keys[n - 1] == key {
            p.push(n - 1)
        } else {
            p
        }
    }
}

/// The groups of two or more words that differ only in the hamza seat on alef, each in order,
/// the groups in the order of their first word.
pub open spec fn variant_groups_upto(keys: Seq<Seq<char>>, n: int) -> Seq<Seq<int>>
    decreases n,
{
    if n <= 0 {
        Seq::empty()
    } else {
        let p = variant_groups_upto(keys, n - 1);
        let g = spelled_upto(keys, keys[n - 1], keys.len() as int);
        if first_of_spelling(keys, n - 1) && g.len() >= 2 {
            p.push(g)
        } else {
            p
        }
    }
}

pub open spec fn spec_variant_groups(words: Seq<Seq<char>>) -> Seq<Seq<int>> {
    let keys = words.map_values(|w: Seq<char>| spelling_key(w));
    variant_groups_upto(keys, keys.len() as int)
}

pub open spec fn index_groups(v: Seq<Vec<usize>>) -> Seq<Seq<int>> {
    v.map_values(|g: Vec<usize>| g@.map_values(|i: usize| i as int))
}

/// The candidates that are one spelling up to the hamza seat on alef, grouped: the ranking
/// puts one lead spelling per group first and the others right after it.
pub fn variant_groups(words: &Vec<String>) -> (r: Vec<Vec<usize>>)
    ensures
        index_groups(r@) == spec_variant_groups(words@.map_values(|w: String| w@)),
{
    let ghost ws = words@.map_values(|w: String| w@);
    let ghost keys = ws.map_values(|w: Seq<char>| spelling_key(w));
    let n = words.len();
    let mut ks: Vec<String> = Vec::new();
    let mut i: usize = 0;
    while i < n
        invariant
            i <= n,
            n == words@.len(),
            ks@.len() == i,
            forall|j: int| 0 <= j < i ==> #[trigger] ks@[j]@ == spelling_key(words@[j]@),
        decreases n - i,
    {
        ks.push(hamza_key(words[i].as_str()));
        i += 1;
    }
    assert forall|j: int| 0 <= j < n implies #[trigger] ks@[j]@ == keys[j] by {
        assert(ws[j] == words@[j]@);
    }
    let mut out: Vec<Vec<usize>> = Vec::new();
    let mut i: usize = 0;
    while i < n
        invariant
            i <= n,
            n == words@.len(),
            n == ks@.len(),
            keys.len() == n,
            forall|j: int| 0 <= j < n ==> #[trigger] ks@[j]@ == keys[j],
            index_groups(out@) == variant_groups_upto(keys, i as int),
        decreases n - i,
    {
        let mut first = true;
        let mut l: usize = 0;
        while l < i
            invariant
                l <= i < n,
                n == ks@.len(),
                forall|j: int| 0 <= j < n ==> #[trigger] ks@[j]@ == keys[j],
                first == forall|m: int| 0 <= m < l ==> #[trigger] keys[m] != keys[i as int],
            decreases i - l,
        {
            if str_eq(ks[l].as_str(), ks[i].as_str()) {
                first = false;
            }
            l += 1;
        }
        if first {
            let mut g: Vec<usize> = Vec::new();
            let mut j: usize = 0;
            while j < n
                invariant
                    j <= n,
                    i < n,
                    n == ks@.len(),
                    forall|m: int| 0 <= m < n ==> #[trigger] ks@[m]@ == keys[m],
                    g@.map_values(|k: usize| k as int) == spelled_upto(keys, keys[i as int], j as int),
                decreases n - j,
            {
                if str_eq(ks[j].as_str(), ks[i].as_str()) {
                    let ghost before = g@.map_values(|k: usize| k as int);
                    g.push(j);
                    assert(g@.map_values(|k: usize| k as int) =~= before.push(j as int));
                }
                j += 1;
            }
            if g.len() >= 2 {
                let ghost before = index_groups(out@);
                out.push(g);
                assert(index_groups(out@) =~= before.push(spelled_upto(keys, keys[i as int], n as int)));
            }
        }
        i += 1;
    }
    out
}

} // verus!
