//! Tables keyed by text, kept in strictly increasing key order (the order `str` sorts in: by
//! code point, which is also the order of the UTF-8 bytes).
use vstd::prelude::*;

use crate::text::chars_of;

verus! {

/// `a` sorts strictly before `b`.
pub open spec fn str_lt(a: Seq<char>, b: Seq<char>) -> bool
    decreases a.len(),
{
    if a.len() == 0 {
        b.len() > 0
    } else if b.len() == 0 {
        false
    } else if a[0] != b[0] {
        a[0] < b[0]
    } else {
        str_lt(a.drop_first(), b.drop_first())
    }
}

pub proof fn lemma_str_lt_irrefl(a: Seq<char>)
    ensures
        !str_lt(a, a),
    decreases a.len(),
{
    if a.len() > 0 {
        lemma_str_lt_irrefl(a.drop_first());
    }
}

pub proof fn lemma_str_lt_total(a: Seq<char>, b: Seq<char>)
    ensures
        a == b || str_lt(a, b) || str_lt(b, a),
        !(str_lt(a, b) && str_lt(b, a)),
    decreases a.len(),
{
    if a.len() > 0 && b.len() > 0 && a[0] == b[0] {
        lemma_str_lt_total(a.drop_first(), b.drop_first());
        if a.drop_first() == b.drop_first() {
            assert(a =~= seq![a[0]] + a.drop_first());
            assert(b =~= seq![b[0]] + b.drop_first());
        }
    }
    if a.len() == 0 && b.len() == 0 {
        assert(a =~= b);
    }
}

pub proof fn lemma_str_lt_trans(a: Seq<char>, b: Seq<char>, c: Seq<char>)
    requires
        str_lt(a, b),
        str_lt(b, c),
    ensures
        str_lt(a, c),
    decreases a.len(),
{
    if a.len() > 0 && b.len() > 0 && c.len() > 0 && a[0] == b[0] && b[0] == c[0] {
        lemma_str_lt_trans(a.drop_first(), b.drop_first(), c.drop_first());
    }
}

/// Keys in strictly increasing order (so each occurs once).
pub open spec fn sorted_keys(ks: Seq<Seq<char>>) -> bool {
    forall|i: int, j: int| 0 <= i < j < ks.len() ==> str_lt(#[trigger] ks[i], #[trigger] ks[j])
}

/// The first index at or after `i` whose key does not sort before `k`, or the length.
pub open spec fn pos_from(ks: Seq<Seq<char>>, k: Seq<char>, i: int) -> int
    decreases ks.len() - i,
{
    if i < 0 || i >= ks.len() {
        ks.len() as int
    } else if !str_lt(ks[i], k) {
        i
    } else {
        pos_from(ks, k, i + 1)
    }
}

/// Where key `k` is, or would be inserted.
pub open spec fn key_pos(ks: Seq<Seq<char>>, k: Seq<char>) -> int {
    pos_from(ks, k, 0)
}

/// `k` is among `ks`, at `key_pos`.
pub open spec fn has_key(ks: Seq<Seq<char>>, k: Seq<char>) -> bool {
    key_pos(ks, k) < ks.len() && ks[key_pos(ks, k)] == k
}

pub proof fn lemma_pos_from(ks: Seq<Seq<char>>, k: Seq<char>, i: int)
    requires
        0 <= i <= ks.len(),
    ensures
        i <= pos_from(ks, k, i) <= ks.len(),
        forall|j: int| i <= j < pos_from(ks, k, i) ==> str_lt(#[trigger] ks[j], k),
        pos_from(ks, k, i) < ks.len() ==> !str_lt(ks[pos_from(ks, k, i)], k),
    decreases ks.len() - i,
{
    if i < ks.len() && str_lt(ks[i], k) {
        lemma_pos_from(ks, k, i + 1);
    }
}

pub proof fn lemma_key_pos(ks: Seq<Seq<char>>, k: Seq<char>)
    ensures
        0 <= key_pos(ks, k) <= ks.len(),
        forall|j: int| 0 <= j < key_pos(ks, k) ==> str_lt(#[trigger] ks[j], k),
        key_pos(ks, k) < ks.len() ==> !str_lt(ks[key_pos(ks, k)], k),
{
    lemma_pos_from(ks, k, 0);
}

/// In sorted keys, `k` occurs exactly at `key_pos` if at all.
pub proof fn lemma_sorted_find(ks: Seq<Seq<char>>, k: Seq<char>)
    requires
        sorted_keys(ks),
    ensures
        forall|j: int| 0 <= j < ks.len() && ks[j] == k ==> j == key_pos(ks, k),
        has_key(ks, k) <==> ks.contains(k),
{
    lemma_key_pos(ks, k);
    let p = key_pos(ks, k);
    assert forall|j: int| 0 <= j < ks.len() && ks[j] == k implies j == p by {
        if j < p {
            lemma_str_lt_irrefl(k);
        } else if j > p {
            lemma_str_lt_total(ks[p], k);
            if ks[p] != k {
                lemma_str_lt_trans(k, ks[p], ks[j]);
                lemma_str_lt_irrefl(k);
            } else {
                lemma_str_lt_irrefl(k);
            }
        }
    }
    if ks.contains(k) {
        let j = choose|j: int| 0 <= j < ks.len() && ks[j] == k;
        assert(j == p);
    }
}

/// A key greater than every key goes at the end.
pub proof fn lemma_key_pos_after_all(ks: Seq<Seq<char>>, k: Seq<char>)
    requires
        forall|j: int| 0 <= j < ks.len() ==> str_lt(#[trigger] ks[j], k),
    ensures
        key_pos(ks, k) == ks.len(),
{
    lemma_key_pos(ks, k);
}

/// Inserting `k` at `key_pos` keeps sorted keys sorted.
pub proof fn lemma_insert_sorted(ks: Seq<Seq<char>>, k: Seq<char>)
    requires
        sorted_keys(ks),
        !has_key(ks, k),
    ensures
        sorted_keys(ks.insert(key_pos(ks, k), k)),
{
    lemma_key_pos(ks, k);
    let p = key_pos(ks, k);
    let r = ks.insert(p, k);
    if p < ks.len() {
        lemma_str_lt_total(ks[p], k);
    }
    assert forall|i: int, j: int| 0 <= i < j < r.len() implies str_lt(#[trigger] r[i], #[trigger] r[j]) by {
        if j < p {
        } else if j == p {
        } else if i < p {
            assert(r[j] == ks[j - 1]);
            assert(str_lt(ks[i], k));
            assert(str_lt(k, ks[p]));
            if j - 1 > p {
                lemma_str_lt_trans(k, ks[p], ks[j - 1]);
            }
            lemma_str_lt_trans(ks[i], k, ks[j - 1]);
        } else if i == p {
            if j - 1 > p {
                lemma_str_lt_trans(k, ks[p], ks[j - 1]);
            }
        } else {
        }
    }
}

/// Removing entries keeps sorted keys sorted.
pub proof fn lemma_remove_sorted(ks: Seq<Seq<char>>, p: int)
    requires
        sorted_keys(ks),
        0 <= p < ks.len(),
    ensures
        sorted_keys(ks.remove(p)),
{
    let r = ks.remove(p);
    assert forall|i: int, j: int| 0 <= i < j < r.len() implies str_lt(#[trigger] r[i], #[trigger] r[j]) by {
        if j < p {
        } else if i < p {
            assert(r[j] == ks[j + 1]);
        } else {
            assert(r[i] == ks[i + 1]);
            assert(r[j] == ks[j + 1]);
        }
    }
}

/// `str_lt`, executable.
pub fn str_less(a: &[char], b: &[char]) -> (r: bool)
    ensures
        r == str_lt(a@, b@),
{
    let mut i: usize = 0;
    assert(a@.skip(0) =~= a@);
    assert(b@.skip(0) =~= b@);
    while i < a.len() && i < b.len()
        invariant
            i <= a@.len(),
            i <= b@.len(),
            forall|j: int| 0 <= j < i ==> a@[j] == b@[j],
            str_lt(a@, b@) == str_lt(a@.skip(i as int), b@.skip(i as int)),
        decreases a.len() - i,
    {
        if a[i] != b[i] {
            assert(a@.skip(i as int)[0] == a@[i as int]);
            assert(b@.skip(i as int)[0] == b@[i as int]);
            return a[i] < b[i];
        }
        assert(a@.skip(i as int).drop_first() =~= a@.skip(i + 1));
        assert(b@.skip(i as int).drop_first() =~= b@.skip(i + 1));
        i += 1;
    }
    i == a.len() && i < b.len()
}

/// The keys of a table, as text.
pub open spec fn keys_of<V>(s: Seq<(String, V)>) -> Seq<Seq<char>> {
    s.map_values(|e: (String, V)| e.0@)
}

/// Where `key` is, or would be inserted, in `v`, and whether it is there.
pub fn position<V>(v: &Vec<(String, V)>, key: &[char]) -> (r: (usize, bool))
    ensures
        r.0 == key_pos(keys_of(v@), key@),
        r.1 == has_key(keys_of(v@), key@),
{
    let ghost ks = keys_of(v@);
    proof {
        lemma_key_pos(ks, key@);
    }
    let mut i: usize = 0;
    while i < v.len()
        invariant
            i <= v@.len(),
            ks == keys_of(v@),
            pos_from(ks, key@, 0) == pos_from(ks, key@, i as int),
        decreases v.len() - i,
    {
        let k = chars_of(v[i].0.as_str());
        assert(ks[i as int] == v@[i as int].0@);
        if !str_less(k.as_slice(), key) {
            let same = crate::keyed::chars_same(k.as_slice(), key);
            return (i, same);
        }
        i += 1;
    }
    (i, false)
}

/// Equal characters, executable.
pub fn chars_same(a: &[char], b: &[char]) -> (r: bool)
    ensures
        r == (a@ == b@),
{
    if a.len() != b.len() {
        return false;
    }
    let mut i: usize = 0;
    while i < a.len()
        invariant
            i <= a@.len(),
            a@.len() == b@.len(),
            forall|j: int| 0 <= j < i ==> a@[j] == b@[j],
        decreases a.len() - i,
    {
        if a[i] != b[i] {
            return false;
        }
        i += 1;
    }
    assert(a@ =~= b@);
    true
}

// ---------------------------------------------------------------------------------------------
// Tables as sequences of (key, value), in key order.

/// The keys of a table.
pub open spec fn skeys<V>(s: Seq<(Seq<char>, V)>) -> Seq<Seq<char>> {
    s.map_values(|e: (Seq<char>, V)| e.0)
}

/// The value stored under `k`.
pub open spec fn lookup<V>(s: Seq<(Seq<char>, V)>, k: Seq<char>) -> Option<V> {
    if has_key(skeys(s), k) {
        Some(s[key_pos(skeys(s), k)].1)
    } else {
        None
    }
}

/// `s` with `k` set to `v` (replaced where it is, else inserted in order).
pub open spec fn put<V>(s: Seq<(Seq<char>, V)>, k: Seq<char>, v: V) -> Seq<(Seq<char>, V)> {
    let p = key_pos(skeys(s), k);
    if has_key(skeys(s), k) {
        s.update(p, (k, v))
    } else {
        s.insert(p, (k, v))
    }
}

/// `s` without key `k`.
pub open spec fn delete<V>(s: Seq<(Seq<char>, V)>, k: Seq<char>) -> Seq<(Seq<char>, V)> {
    if has_key(skeys(s), k) {
        s.remove(key_pos(skeys(s), k))
    } else {
        s
    }
}

pub proof fn lemma_put_sorted<V>(s: Seq<(Seq<char>, V)>, k: Seq<char>, v: V)
    requires
        sorted_keys(skeys(s)),
    ensures
        sorted_keys(skeys(put(s, k, v))),
        put(s, k, v).len() == s.len() + if has_key(skeys(s), k) { 0int } else { 1int },
{
    lemma_key_pos(skeys(s), k);
    let p = key_pos(skeys(s), k);
    if has_key(skeys(s), k) {
        assert(skeys(put(s, k, v)) =~= skeys(s));
    } else {
        lemma_insert_sorted(skeys(s), k);
        assert(skeys(put(s, k, v)) =~= skeys(s).insert(p, k));
    }
}

pub proof fn lemma_delete_sorted<V>(s: Seq<(Seq<char>, V)>, k: Seq<char>)
    requires
        sorted_keys(skeys(s)),
    ensures
        sorted_keys(skeys(delete(s, k))),
{
    lemma_key_pos(skeys(s), k);
    if has_key(skeys(s), k) {
        let p = key_pos(skeys(s), k);
        lemma_remove_sorted(skeys(s), p);
        assert(skeys(delete(s, k)) =~= skeys(s).remove(p));
    }
}

/// Putting a key greater than every key appends it.
pub proof fn lemma_put_last<V>(s: Seq<(Seq<char>, V)>, k: Seq<char>, v: V)
    requires
        forall|j: int| 0 <= j < s.len() ==> str_lt(#[trigger] s[j].0, k),
    ensures
        put(s, k, v) == s.push((k, v)),
{
    let ks = skeys(s);
    assert forall|j: int| 0 <= j < ks.len() implies str_lt(#[trigger] ks[j], k) by {
        assert(ks[j] == s[j].0);
    }
    lemma_key_pos_after_all(ks, k);
    assert(put(s, k, v) =~= s.push((k, v)));
}

// ---------------------------------------------------------------------------------------------
// Tables keyed by pairs of texts, in (first, second) order.

pub open spec fn pair_lt(a: (Seq<char>, Seq<char>), b: (Seq<char>, Seq<char>)) -> bool {
    str_lt(a.0, b.0) || (a.0 == b.0 && str_lt(a.1, b.1))
}

pub open spec fn sorted_pairs(ks: Seq<(Seq<char>, Seq<char>)>) -> bool {
    forall|i: int, j: int| 0 <= i < j < ks.len() ==> pair_lt(#[trigger] ks[i], #[trigger] ks[j])
}

pub proof fn lemma_pair_lt(a: (Seq<char>, Seq<char>), b: (Seq<char>, Seq<char>), c: (Seq<char>, Seq<char>))
    ensures
        !pair_lt(a, a),
        a == b || pair_lt(a, b) || pair_lt(b, a),
        pair_lt(a, b) && pair_lt(b, c) ==> pair_lt(a, c),
{
    lemma_str_lt_irrefl(a.0);
    lemma_str_lt_irrefl(a.1);
    lemma_str_lt_total(a.0, b.0);
    lemma_str_lt_total(a.1, b.1);
    lemma_str_lt_total(b.0, c.0);
    if pair_lt(a, b) && pair_lt(b, c) {
        if str_lt(a.0, b.0) && str_lt(b.0, c.0) {
            lemma_str_lt_trans(a.0, b.0, c.0);
        }
        if a.0 == b.0 && b.0 == c.0 && str_lt(a.1, b.1) && str_lt(b.1, c.1) {
            lemma_str_lt_trans(a.1, b.1, c.1);
        }
    }
}

pub open spec fn ppos_from(ks: Seq<(Seq<char>, Seq<char>)>, k: (Seq<char>, Seq<char>), i: int) -> int
    decreases ks.len() - i,
{
    if i < 0 || i >= ks.len() {
        ks.len() as int
    } else if !pair_lt(ks[i], k) {
        i
    } else {
        ppos_from(ks, k, i + 1)
    }
}

pub open spec fn pkeys<V>(s: Seq<((Seq<char>, Seq<char>), V)>) -> Seq<(Seq<char>, Seq<char>)> {
    s.map_values(|e: ((Seq<char>, Seq<char>), V)| e.0)
}

pub open spec fn ppos<V>(s: Seq<((Seq<char>, Seq<char>), V)>, k: (Seq<char>, Seq<char>)) -> int {
    ppos_from(pkeys(s), k, 0)
}

pub open spec fn has_pair<V>(s: Seq<((Seq<char>, Seq<char>), V)>, k: (Seq<char>, Seq<char>)) -> bool {
    ppos(s, k) < s.len() && s[ppos(s, k)].0 == k
}

pub open spec fn plookup<V>(s: Seq<((Seq<char>, Seq<char>), V)>, k: (Seq<char>, Seq<char>)) -> Option<V> {
    if has_pair(s, k) {
        Some(s[ppos(s, k)].1)
    } else {
        None
    }
}

pub open spec fn pput<V>(s: Seq<((Seq<char>, Seq<char>), V)>, k: (Seq<char>, Seq<char>), v: V) -> Seq<
    ((Seq<char>, Seq<char>), V),
> {
    if has_pair(s, k) {
        s.update(ppos(s, k), (k, v))
    } else {
        s.insert(ppos(s, k), (k, v))
    }
}

pub open spec fn pdelete<V>(s: Seq<((Seq<char>, Seq<char>), V)>, k: (Seq<char>, Seq<char>)) -> Seq<
    ((Seq<char>, Seq<char>), V),
> {
    if has_pair(s, k) {
        s.remove(ppos(s, k))
    } else {
        s
    }
}

pub proof fn lemma_ppos_from(ks: Seq<(Seq<char>, Seq<char>)>, k: (Seq<char>, Seq<char>), i: int)
    requires
        0 <= i <= ks.len(),
    ensures
        i <= ppos_from(ks, k, i) <= ks.len(),
        forall|j: int| i <= j < ppos_from(ks, k, i) ==> pair_lt(#[trigger] ks[j], k),
        ppos_from(ks, k, i) < ks.len() ==> !pair_lt(ks[ppos_from(ks, k, i)], k),
    decreases ks.len() - i,
{
    if i < ks.len() && pair_lt(ks[i], k) {
        lemma_ppos_from(ks, k, i + 1);
    }
}

pub proof fn lemma_pput_sorted<V>(s: Seq<((Seq<char>, Seq<char>), V)>, k: (Seq<char>, Seq<char>), v: V)
    requires
        sorted_pairs(pkeys(s)),
    ensures
        sorted_pairs(pkeys(pput(s, k, v))),
{
    let ks = pkeys(s);
    lemma_ppos_from(ks, k, 0);
    let p = ppos(s, k);
    if has_pair(s, k) {
        assert(pkeys(pput(s, k, v)) =~= ks);
    } else {
        let r = ks.insert(p, k);
        assert(pkeys(pput(s, k, v)) =~= r);
        if p < ks.len() {
            lemma_pair_lt(ks[p], k, k);
        }
        assert forall|i: int, j: int| 0 <= i < j < r.len() implies pair_lt(#[trigger] r[i], #[trigger] r[j]) by {
            if j < p {
            } else if j == p {
            } else if i < p {
                assert(r[j] == ks[j - 1]);
                if j - 1 > p {
                    lemma_pair_lt(k, ks[p], ks[j - 1]);
                }
                lemma_pair_lt(ks[i], k, ks[j - 1]);
            } else if i == p {
                if j - 1 > p {
                    lemma_pair_lt(k, ks[p], ks[j - 1]);
                }
            } else {
            }
        }
    }
}

pub proof fn lemma_pdelete_sorted<V>(s: Seq<((Seq<char>, Seq<char>), V)>, k: (Seq<char>, Seq<char>))
    requires
        sorted_pairs(pkeys(s)),
    ensures
        sorted_pairs(pkeys(pdelete(s, k))),
{
    let ks = pkeys(s);
    lemma_ppos_from(ks, k, 0);
    if has_pair(s, k) {
        let p = ppos(s, k);
        let r = ks.remove(p);
        assert(pkeys(pdelete(s, k)) =~= r);
        assert forall|i: int, j: int| 0 <= i < j < r.len() implies pair_lt(#[trigger] r[i], #[trigger] r[j]) by {
            if j < p {
            } else if i < p {
                assert(r[j] == ks[j + 1]);
            } else {
                assert(r[i] == ks[i + 1]);
                assert(r[j] == ks[j + 1]);
            }
        }
    }
}

/// Putting a pair greater than every pair appends it.
pub proof fn lemma_pput_last<V>(s: Seq<((Seq<char>, Seq<char>), V)>, k: (Seq<char>, Seq<char>), v: V)
    requires
        forall|j: int| 0 <= j < s.len() ==> pair_lt(#[trigger] s[j].0, k),
    ensures
        pput(s, k, v) == s.push((k, v)),
{
    let ks = pkeys(s);
    lemma_ppos_from(ks, k, 0);
    assert forall|j: int| 0 <= j < ks.len() implies pair_lt(#[trigger] ks[j], k) by {
        assert(ks[j] == s[j].0);
    }
    if ppos(s, k) < s.len() {
        assert(pair_lt(ks[ppos(s, k)], k));
    }
    assert(pput(s, k, v) =~= s.push((k, v)));
}

/// `pair_lt`, executable.
pub fn pair_less(a: &[char], b: &[char], c: &[char], d: &[char]) -> (r: bool)
    ensures
        r == pair_lt((a@, b@), (c@, d@)),
{
    if str_less(a, c) {
        true
    } else if chars_same(a, c) {
        str_less(b, d)
    } else {
        false
    }
}

/// In sorted pair keys, `k` occurs exactly at `ppos` if at all.
pub proof fn lemma_psorted_find<V>(s: Seq<((Seq<char>, Seq<char>), V)>, k: (Seq<char>, Seq<char>))
    requires
        sorted_pairs(pkeys(s)),
    ensures
        forall|j: int| 0 <= j < s.len() && (#[trigger] s[j]).0 == k ==> j == ppos(s, k),
        has_pair(s, k) <==> (exists|j: int| 0 <= j < s.len() && (#[trigger] s[j]).0 == k),
{
    let ks = pkeys(s);
    lemma_ppos_from(ks, k, 0);
    let p = ppos(s, k);
    assert forall|j: int| 0 <= j < s.len() && (#[trigger] s[j]).0 == k implies j == p by {
        assert(ks[j] == s[j].0);
        if j < p {
            lemma_pair_lt(k, k, k);
        } else if j > p {
            assert(ks[p] == s[p].0);
            lemma_pair_lt(ks[p], k, k);
            if ks[p] != k {
                lemma_pair_lt(k, ks[p], ks[j]);
            }
        }
    }
    if has_pair(s, k) {
        assert(s[p].0 == k);
    }
}

/// After deleting `k`, it is gone.
pub proof fn lemma_plookup_pdelete<V>(s: Seq<((Seq<char>, Seq<char>), V)>, k: (Seq<char>, Seq<char>))
    requires
        sorted_pairs(pkeys(s)),
    ensures
        plookup(pdelete(s, k), k) is None,
{
    lemma_psorted_find(s, k);
    lemma_pdelete_sorted(s, k);
    let r = pdelete(s, k);
    lemma_psorted_find(r, k);
    lemma_ppos_from(pkeys(s), k, 0);
    if has_pair(r, k) {
        let j = ppos(r, k);
        lemma_ppos_from(pkeys(r), k, 0);
        if has_pair(s, k) {
            let p = ppos(s, k);
            if j < p {
                assert(r[j] == s[j]);
            } else {
                assert(r[j] == s[j + 1]);
            }
        } else {
            assert(r[j] == s[j]);
        }
    }
}

/// Setting one pair leaves every other pair's value as it was.
pub proof fn lemma_plookup_pput_other<V>(
    s: Seq<((Seq<char>, Seq<char>), V)>,
    k1: (Seq<char>, Seq<char>),
    x: V,
    k2: (Seq<char>, Seq<char>),
)
    requires
        sorted_pairs(pkeys(s)),
        k1 != k2,
    ensures
        plookup(pput(s, k1, x), k2) == plookup(s, k2),
{
    lemma_pput_sorted(s, k1, x);
    let r = pput(s, k1, x);
    lemma_psorted_find(s, k2);
    lemma_psorted_find(r, k2);
    lemma_ppos_from(pkeys(s), k1, 0);
    lemma_ppos_from(pkeys(s), k2, 0);
    lemma_ppos_from(pkeys(r), k2, 0);
    let p = ppos(s, k1);
    if has_pair(s, k2) {
        let j = ppos(s, k2);
        if has_pair(s, k1) {
            assert(r[j] == s[j]);
        } else if j < p {
            assert(r[j] == s[j]);
        } else {
            assert(r[j + 1] == s[j]);
        }
    } else if has_pair(r, k2) {
        let j = ppos(r, k2);
        if has_pair(s, k1) {
            assert(r[j] == s[j] || j == p);
        } else if j < p {
            assert(r[j] == s[j]);
        } else if j > p {
            assert(r[j] == s[j - 1]);
        }
    }
}

/// After putting `k`, looking it up gives what was put.
pub proof fn lemma_lookup_put<V>(s: Seq<(Seq<char>, V)>, k: Seq<char>, v: V)
    requires
        sorted_keys(skeys(s)),
    ensures
        lookup(put(s, k, v), k) == Some(v),
{
    lemma_put_sorted(s, k, v);
    lemma_key_pos(skeys(s), k);
    let p = key_pos(skeys(s), k);
    let r = put(s, k, v);
    assert(skeys(r)[p] == k);
    lemma_sorted_find(skeys(r), k);
}

/// After putting the pair key `k`, looking it up gives what was put.
pub proof fn lemma_plookup_pput<V>(s: Seq<((Seq<char>, Seq<char>), V)>, k: (Seq<char>, Seq<char>), v: V)
    requires
        sorted_pairs(pkeys(s)),
    ensures
        plookup(pput(s, k, v), k) == Some(v),
{
    lemma_pput_sorted(s, k, v);
    lemma_ppos_from(pkeys(s), k, 0);
    let p = ppos(s, k);
    let r = pput(s, k, v);
    assert(r[p] == (k, v));
    lemma_psorted_find(r, k);
}

/// Putting `k` leaves what is stored under every other key as it was.
pub proof fn lemma_lookup_put_other<V>(s: Seq<(Seq<char>, V)>, k: Seq<char>, v: V, w: Seq<char>)
    requires
        sorted_keys(skeys(s)),
        w != k,
    ensures
        lookup(put(s, k, v), w) == lookup(s, w),
{
    lemma_put_sorted(s, k, v);
    lemma_key_pos(skeys(s), k);
    let p = key_pos(skeys(s), k);
    let r = put(s, k, v);
    let ks = skeys(s);
    let kr = skeys(r);
    lemma_sorted_find(ks, w);
    lemma_sorted_find(kr, w);
    if has_key(ks, w) {
        let i = key_pos(ks, w);
        let ir = if has_key(ks, k) || i < p { i } else { i + 1 };
        assert(r[ir] == s[i]);
        assert(kr[ir] == w);
        assert(kr.contains(w));
    } else {
        if kr.contains(w) {
            let j = choose|j: int| 0 <= j < kr.len() && kr[j] == w;
            if has_key(ks, k) {
                if j != p {
                    assert(ks[j] == w);
                }
            } else if j < p {
                assert(ks[j] == w);
            } else if j > p {
                assert(ks[j - 1] == w);
            }
            assert(false);
        }
    }
}

} // verus!
