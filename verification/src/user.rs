//! The user model: what was chosen for each typed key, negative evidence against candidates the
//! user skipped, and how often each word was chosen; its update rules and its snapshot encoding.
use vstd::prelude::*;

use crate::keyed::{
    chars_same, lemma_lookup_put, lemma_lookup_put_other, lemma_plookup_pdelete, lemma_plookup_pput, lemma_plookup_pput_other, lemma_psorted_find, lemma_sorted_find, delete, has_key, has_pair, key_pos, keys_of, lemma_delete_sorted, lemma_key_pos,
    lemma_pdelete_sorted, lemma_ppos_from, lemma_pput_sorted, lemma_put_sorted, lookup, pair_less,
    pdelete, pkeys, plookup, position, ppos, ppos_from, pput, put, skeys, sorted_keys,
    sorted_pairs,
};
use crate::bytes::{push_all, push_u32, push_u64};
use crate::bytes::{u32_at, u64_at};
use crate::snapshot::{
    encodable, encode_keys, encode_neg, encode_words, lemma_read_keys_none, lemma_read_negs_none,
    lemma_read_words_none, read_choices, read_choices_at, read_count_at, read_key, read_keys,
    read_neg, read_negs, read_text_at, read_word, read_words, snapshot_body, spec_decode_snapshot,
    spec_snapshot,
};
pub use crate::snapshot::{fnv64, SnapshotMark, SNAPSHOT_MAGIC};
use crate::journal::{made_from, JournalRecord, KIND_CHOOSE, KIND_NEGATIVE};
use crate::text::{chars_of, push_str, string_of};

verus! {

/// Word marker for "the user chose raw Latin for this key".
pub const RAW_LATIN: &'static str = "\u{0}RAW";

/// One remembered choice for a key: the word, how often it was chosen, and when last (a logical
/// clock).
pub struct Choice {
    pub word: String,
    pub count: u32,
    pub last: u64,
}

/// A choice as plain values: (word, count, last use).
pub type ChoiceV = (Seq<char>, u32, u64);

/// The user model as plain values. Every table is in strictly increasing key order.
#[verifier::ext_equal]
pub struct UserView {
    /// Per typed key, its choices, most recently used first.
    pub choices: Seq<(Seq<char>, Seq<ChoiceV>)>,
    /// Per (typed key, word): how often the word was rank 1 and the user navigated past it.
    pub neg: Seq<((Seq<char>, Seq<char>), u32)>,
    /// Per word: how often it was chosen, for any key.
    pub words: Seq<(Seq<char>, u32)>,
    /// The logical clock: one tick per recorded choice.
    pub clock: u64,
}

pub open spec fn choice_view(c: Choice) -> ChoiceV {
    (c.word@, c.count, c.last)
}

pub open spec fn list_view(l: Seq<Choice>) -> Seq<ChoiceV> {
    l.map_values(|c: Choice| choice_view(c))
}

pub open spec fn choices_view(v: Seq<(String, Vec<Choice>)>) -> Seq<(Seq<char>, Seq<ChoiceV>)> {
    v.map_values(|e: (String, Vec<Choice>)| (e.0@, list_view(e.1@)))
}

pub open spec fn neg_view(v: Seq<((String, String), u32)>) -> Seq<((Seq<char>, Seq<char>), u32)> {
    v.map_values(|e: ((String, String), u32)| ((e.0.0@, e.0.1@), e.1))
}

pub open spec fn counts_view(v: Seq<(String, u32)>) -> Seq<(Seq<char>, u32)> {
    v.map_values(|e: (String, u32)| (e.0@, e.1))
}

/// The tables are in key order and no choice list is longer than a snapshot can hold.
pub open spec fn user_wf(v: UserView) -> bool {
    &&& sorted_keys(skeys(v.choices))
    &&& sorted_pairs(pkeys(v.neg))
    &&& sorted_keys(skeys(v.words))
    &&& forall|i: int| 0 <= i < v.choices.len() ==> (#[trigger] v.choices[i]).1.len() <= 255
}

/// Room for one more recorded choice: no counter is at its maximum.
pub open spec fn has_room(v: UserView) -> bool {
    &&& v.clock < u64::MAX
    &&& forall|i: int, j: int|
        0 <= i < v.choices.len() && 0 <= j < v.choices[i].1.len() ==> (#[trigger] v.choices[i].1[j]).1
            < u32::MAX
    &&& forall|i: int| 0 <= i < v.neg.len() ==> (#[trigger] v.neg[i]).1 < u32::MAX
    &&& forall|i: int| 0 <= i < v.words.len() ==> (#[trigger] v.words[i]).1 < u32::MAX
}

/// The empty model.
pub open spec fn empty_user() -> UserView {
    UserView { choices: Seq::empty(), neg: Seq::empty(), words: Seq::empty(), clock: 0 }
}

/// Index of the first choice at or after `i` for word `w`, or -1.
pub open spec fn find_from(l: Seq<ChoiceV>, w: Seq<char>, i: int) -> int
    decreases l.len() - i,
{
    if i < 0 || i >= l.len() {
        -1
    } else if l[i].0 == w {
        i
    } else {
        find_from(l, w, i + 1)
    }
}

/// Where a choice last used at `last` goes in a list ordered by last use, most recent first:
/// after every choice used at the same time or later.
pub open spec fn last_pos(r: Seq<ChoiceV>, last: u64, i: int) -> int
    decreases r.len() - i,
{
    if i < 0 || i >= r.len() {
        r.len() as int
    } else if r[i].2 < last {
        i
    } else {
        last_pos(r, last, i + 1)
    }
}

/// `s` stably sorted by last use, most recent first.
pub open spec fn sort_by_last(s: Seq<ChoiceV>) -> Seq<ChoiceV>
    decreases s.len(),
{
    if s.len() == 0 {
        Seq::empty()
    } else {
        let r = sort_by_last(s.drop_last());
        r.insert(last_pos(r, s.last().2, 0), s.last())
    }
}

/// The list after choosing `w` at time `clock`: its count goes up and it is used now (a new word
/// joins with count 1); then most recent first, at most four kept.
pub open spec fn chosen_list(l: Seq<ChoiceV>, w: Seq<char>, clock: u64) -> Seq<ChoiceV> {
    let i = find_from(l, w, 0);
    let bumped = if i >= 0 {
        l.update(i, (w, (l[i].1 + 1) as u32, clock))
    } else {
        l.push((w, 1u32, clock))
    };
    let s = sort_by_last(bumped);
    if s.len() > 4 {
        s.take(4)
    } else {
        s
    }
}

/// The choices remembered for `key` (none when unknown).
pub open spec fn choices_for(v: UserView, key: Seq<char>) -> Seq<ChoiceV> {
    match lookup(v.choices, key) {
        Some(l) => l,
        None => Seq::empty(),
    }
}

/// How often `word` was chosen for `key`.
pub open spec fn choice_count(v: UserView, key: Seq<char>, word: Seq<char>) -> u32 {
    let l = choices_for(v, key);
    let i = find_from(l, word, 0);
    if i >= 0 {
        l[i].1
    } else {
        0
    }
}

/// How often `word` was chosen, for any key.
pub open spec fn word_count(v: UserView, word: Seq<char>) -> u32 {
    match lookup(v.words, word) {
        Some(c) => c,
        None => 0,
    }
}

/// The negative evidence against `word` for `key`.
pub open spec fn neg_count(neg: Seq<((Seq<char>, Seq<char>), u32)>, key: Seq<char>, word: Seq<char>) -> u32 {
    match plookup(neg, (key, word)) {
        Some(c) => c,
        None => 0,
    }
}

/// Keys longer than this many UTF-8 bytes are not learned.
pub open spec fn learnable_key(key: Seq<char>) -> bool {
    vstd::utf8::encode_utf8(key).len() <= 32
}

/// One commit: `word` (a base form, or `RAW_LATIN`) chosen for `key` at `rank`; `top` was rank 1.
/// Choosing a word clears the negative evidence against it for that key; choosing past the top
/// candidate by navigating counts against the top candidate.
pub open spec fn spec_record(
    v: UserView,
    key: Seq<char>,
    word: Seq<char>,
    rank: usize,
    navigated: bool,
    top: Option<Seq<char>>,
) -> UserView {
    if !learnable_key(key) {
        v
    } else {
        let clock = (v.clock + 1) as u64;
        let choices = put(v.choices, key, chosen_list(choices_for(v, key), word, clock));
        let words = put(v.words, word, (word_count(v, word) + 1) as u32);
        let neg1 = pdelete(v.neg, (key, word));
        let neg = match top {
            Some(t) => if rank > 0 && navigated && t != word {
                pput(neg1, (key, t), (neg_count(neg1, key, t) + 1) as u32)
            } else {
                neg1
            },
            None => neg1,
        };
        UserView { choices, neg, words, clock }
    }
}

/// Negative evidence replayed from the journal: `word` was rank 1 for `key` and was skipped.
pub open spec fn spec_record_negative(v: UserView, key: Seq<char>, word: Seq<char>) -> UserView {
    if !learnable_key(key) || word.len() == 0 {
        v
    } else {
        UserView {
            neg: pput(v.neg, (key, word), (neg_count(v.neg, key, word) + 1) as u32),
            ..v
        }
    }
}

/// The choice pinned to rank 1 for `key`: the most recent one, unless the user has since
/// navigated past it.
pub open spec fn spec_sticky(v: UserView, key: Seq<char>) -> Option<Seq<char>> {
    let l = choices_for(v, key);
    if l.len() > 0 && neg_count(v.neg, key, l[0].0) == 0 {
        Some(l[0].0)
    } else {
        None
    }
}

/// The counts behind the user feature of a (key, word) pair.
pub struct UsrCounts {
    /// Times `word` was chosen for `key`.
    pub chosen: u32,
    /// Times `word` was chosen for any key.
    pub word: u32,
    /// Times the user navigated past `word` for `key`.
    pub negative: u32,
}

/// A user model that knows nothing (learning disabled, or first run).
pub struct NoUser;

impl NoUser {
    /// Nothing is pinned.
    pub fn sticky(&self, key: &str) -> (r: Option<String>)
        ensures
            r is None,
    {
        None
    }

    /// Nothing was ever chosen.
    pub fn counts(&self, key: &str, word: &str) -> (r: UsrCounts)
        ensures
            r.chosen == 0 && r.word == 0 && r.negative == 0,
    {
        UsrCounts { chosen: 0, word: 0, negative: 0 }
    }
}

/// The in-memory user model.
pub struct MemoryUser {
    choices: Vec<(String, Vec<Choice>)>,
    neg: Vec<((String, String), u32)>,
    words: Vec<(String, u32)>,
    clock: u64,
}

fn copy_string(s: &str) -> (r: String)
    ensures
        r@ == s@,
{
    let mut r = String::new();
    push_str(&mut r, s);
    r
}

proof fn lemma_keys_match<V, W>(v: Seq<(String, V)>, w: Seq<(Seq<char>, W)>)
    requires
        v.len() == w.len(),
        forall|i: int| 0 <= i < v.len() ==> (#[trigger] v[i]).0@ == w[i].0,
    ensures
        keys_of(v) == skeys(w),
{
    assert(keys_of(v) =~= skeys(w));
}

/// Index of the first choice in `l` for `w`.
fn find_choice(l: &Vec<Choice>, w: &[char]) -> (r: Option<usize>)
    ensures
        match r {
            Some(i) => i == find_from(list_view(l@), w@, 0) && i < l@.len(),
            None => find_from(list_view(l@), w@, 0) == -1,
        },
{
    let ghost lv = list_view(l@);
    let mut i: usize = 0;
    while i < l.len()
        invariant
            i <= l@.len(),
            lv == list_view(l@),
            find_from(lv, w@, 0) == find_from(lv, w@, i as int),
        decreases l.len() - i,
    {
        let cw = chars_of(l[i].word.as_str());
        assert(lv[i as int].0 == l@[i as int].word@);
        if chars_same(cw.as_slice(), w) {
            return Some(i);
        }
        i += 1;
    }
    None
}

fn copy_choice(c: &Choice) -> (r: Choice)
    ensures
        choice_view(r) == choice_view(*c),
{
    Choice { word: copy_string(c.word.as_str()), count: c.count, last: c.last }
}

/// `l` stably sorted by last use, most recent first.
fn sorted_by_last(l: &Vec<Choice>) -> (r: Vec<Choice>)
    ensures
        list_view(r@) == sort_by_last(list_view(l@)),
{
    let ghost lv = list_view(l@);
    let mut r: Vec<Choice> = Vec::new();
    let mut i: usize = 0;
    assert(lv.take(0) =~= Seq::<ChoiceV>::empty());
    while i < l.len()
        invariant
            i <= l@.len(),
            lv == list_view(l@),
            list_view(r@) == sort_by_last(lv.take(i as int)),
        decreases l.len() - i,
    {
        let last = l[i].last;
        let ghost rv = list_view(r@);
        let mut p: usize = 0;
        while p < r.len() && r[p].last >= last
            invariant
                p <= r@.len(),
                rv == list_view(r@),
                last_pos(rv, last, 0) == last_pos(rv, last, p as int),
            decreases r.len() - p,
        {
            p += 1;
        }
        let c = copy_choice(&l[i]);
        r.insert(p, c);
        proof {
            assert(lv.take(i + 1).drop_last() =~= lv.take(i as int));
            assert(lv.take(i + 1).last() == lv[i as int]);
            assert(list_view(r@) =~= rv.insert(p as int, lv[i as int]));
        }
        i += 1;
    }
    assert(lv.take(l@.len() as int) =~= lv);
    r
}

/// Position of the pair (`k`, `w`) in `v`, and whether it is there.
fn pair_position(v: &Vec<((String, String), u32)>, k: &[char], w: &[char]) -> (r: (usize, bool))
    ensures
        r.0 == ppos(neg_view(v@), (k@, w@)),
        r.1 == has_pair(neg_view(v@), (k@, w@)),
{
    let ghost nv = neg_view(v@);
    let ghost ks = pkeys(nv);
    proof {
        lemma_ppos_from(ks, (k@, w@), 0);
    }
    let mut i: usize = 0;
    while i < v.len()
        invariant
            i <= v@.len(),
            nv == neg_view(v@),
            ks == pkeys(nv),
            ppos_from(ks, (k@, w@), 0) == ppos_from(ks, (k@, w@), i as int),
        decreases v.len() - i,
    {
        let a = chars_of(v[i].0.0.as_str());
        let b = chars_of(v[i].0.1.as_str());
        assert(ks[i as int] == (a@, b@));
        if !pair_less(a.as_slice(), b.as_slice(), k, w) {
            let same = chars_same(a.as_slice(), k) && chars_same(b.as_slice(), w);
            return (i, same);
        }
        i += 1;
    }
    (i, false)
}

impl MemoryUser {
    /// The model as plain values.
    pub closed spec fn view(&self) -> UserView {
        UserView {
            choices: choices_view(self.choices@),
            neg: neg_view(self.neg@),
            words: counts_view(self.words@),
            clock: self.clock,
        }
    }

    /// The model is well formed.
    pub open spec fn wf(&self) -> bool {
        user_wf(self.view())
    }

    /// A model that knows nothing.
    pub fn new() -> (u: Self)
        ensures
            u.view() == empty_user(),
            u.wf(),
    {
        let u = MemoryUser { choices: Vec::new(), neg: Vec::new(), words: Vec::new(), clock: 0 };
        assert(u.view().choices =~= Seq::<(Seq<char>, Seq<ChoiceV>)>::empty());
        assert(u.view().neg =~= Seq::<((Seq<char>, Seq<char>), u32)>::empty());
        assert(u.view().words =~= Seq::<(Seq<char>, u32)>::empty());
        u
    }

    /// No counter is at its maximum, so one more choice can be recorded.
    pub fn has_room(&self) -> (r: bool)
        ensures
            r == has_room(self.view()),
    {
        let ghost v = self.view();
        if self.clock == u64::MAX {
            return false;
        }
        let mut i: usize = 0;
        while i < self.choices.len()
            invariant
                i <= self.choices@.len(),
                v == self.view(),
                forall|a: int, b: int|
                    0 <= a < i && 0 <= b < v.choices[a].1.len() ==> (#[trigger] v.choices[a].1[b]).1
                        < u32::MAX,
            decreases self.choices.len() - i,
        {
            let l = &self.choices[i].1;
            let mut j: usize = 0;
            while j < l.len()
                invariant
                    i < self.choices@.len(),
                    l == self.choices@[i as int].1,
                    j <= l@.len(),
                    v == self.view(),
                    forall|b: int| 0 <= b < j ==> (#[trigger] v.choices[i as int].1[b]).1 < u32::MAX,
                decreases l.len() - j,
            {
                assert(v.choices[i as int].1[j as int] == choice_view(l@[j as int]));
                if l[j].count == u32::MAX {
                    assert(v.choices[i as int].1[j as int].1 == u32::MAX);
                    return false;
                }
                j += 1;
            }
            i += 1;
        }
        let mut i: usize = 0;
        while i < self.neg.len()
            invariant
                i <= self.neg@.len(),
                v == self.view(),
                forall|a: int| 0 <= a < i ==> (#[trigger] v.neg[a]).1 < u32::MAX,
            decreases self.neg.len() - i,
        {
            if self.neg[i].1 == u32::MAX {
                assert(v.neg[i as int].1 == u32::MAX);
                return false;
            }
            i += 1;
        }
        let mut i: usize = 0;
        while i < self.words.len()
            invariant
                i <= self.words@.len(),
                v == self.view(),
                forall|a: int| 0 <= a < i ==> (#[trigger] v.words[a]).1 < u32::MAX,
            decreases self.words.len() - i,
        {
            if self.words[i].1 == u32::MAX {
                assert(v.words[i as int].1 == u32::MAX);
                return false;
            }
            i += 1;
        }
        true
    }

    /// The choices remembered for `key`, copied.
    fn list_for(&self, key: &[char]) -> (r: Vec<Choice>)
        ensures
            list_view(r@) == choices_for(self.view(), key@),
    {
        let ghost v = self.view();
        proof {
            lemma_keys_match(self.choices@, v.choices);
        }
        let (p, found) = position(&self.choices, key);
        let mut r: Vec<Choice> = Vec::new();
        if found {
            let l = &self.choices[p].1;
            let mut j: usize = 0;
            while j < l.len()
                invariant
                    p < self.choices@.len(),
                    l == self.choices@[p as int].1,
                    j <= l@.len(),
                    r@.len() == j,
                    list_view(r@) == list_view(l@).take(j as int),
                decreases l.len() - j,
            {
                let c = copy_choice(&l[j]);
                let ghost before = r@;
                r.push(c);
                proof {
                    assert(r@ == before.push(c));
                    assert(list_view(l@)[j as int] == choice_view(l@[j as int]));
                    assert forall|t: int| 0 <= t < j + 1 implies list_view(r@)[t] == list_view(l@).take(j + 1)[t] by {
                        if t < j {
                            assert(r@[t] == before[t]);
                            assert(list_view(before)[t] == list_view(l@).take(j as int)[t]);
                        }
                    }
                    assert(list_view(r@) =~= list_view(l@).take(j + 1));
                }
                j += 1;
            }
            assert(list_view(l@).take(l@.len() as int) =~= list_view(l@));
        } else {
            assert(list_view(r@) =~= Seq::<ChoiceV>::empty());
        }
        r
    }

    /// The negative evidence against `word` for `key`.
    fn neg_of(&self, key: &[char], word: &[char]) -> (r: u32)
        ensures
            r == neg_count(self.view().neg, key@, word@),
    {
        let (p, found) = pair_position(&self.neg, key, word);
        if found {
            self.neg[p].1
        } else {
            0
        }
    }

    /// The choice pinned to rank 1 for `key`, if any: the most recent one, unless the user has
    /// since navigated past it.
    pub fn sticky(&self, key: &str) -> (r: Option<String>)
        ensures
            match spec_sticky(self.view(), key@) {
                Some(w) => r matches Some(s) && s@ == w,
                None => r is None,
            },
    {
        let k = chars_of(key);
        let l = self.list_for(k.as_slice());
        if l.len() == 0 {
            return None;
        }
        let w = chars_of(l[0].word.as_str());
        if self.neg_of(k.as_slice(), w.as_slice()) == 0 {
            Some(copy_string(l[0].word.as_str()))
        } else {
            None
        }
    }

    /// The counts behind the user feature of (`key`, `word`).
    pub fn counts(&self, key: &str, word: &str) -> (r: UsrCounts)
        ensures
            r.chosen == choice_count(self.view(), key@, word@),
            r.word == word_count(self.view(), word@),
            r.negative == neg_count(self.view().neg, key@, word@),
    {
        let k = chars_of(key);
        let w = chars_of(word);
        let l = self.list_for(k.as_slice());
        let chosen = match find_choice(&l, w.as_slice()) {
            Some(i) => l[i].count,
            None => 0,
        };
        let ghost v = self.view();
        proof {
            lemma_keys_match(self.words@, v.words);
        }
        let (p, found) = position(&self.words, w.as_slice());
        let wc = if found {
            self.words[p].1
        } else {
            0
        };
        UsrCounts { chosen, word: wc, negative: self.neg_of(k.as_slice(), w.as_slice()) }
    }
}

/// `l` after choosing the word `w` at time `clock` (see `chosen_list`).
fn chosen(l: Vec<Choice>, w: &[char], word: &str, clock: u64) -> (r: Vec<Choice>)
    requires
        w@ == word@,
        forall|j: int| 0 <= j < l@.len() ==> (#[trigger] l@[j]).count < u32::MAX,
    ensures
        list_view(r@) == chosen_list(list_view(l@), w@, clock),
        r@.len() <= 4,
{
    let ghost lv = list_view(l@);
    let mut l = l;
    match find_choice(&l, w) {
        Some(i) => {
            let old_c = l.remove(i);
            let c = Choice { word: copy_string(word), count: old_c.count + 1, last: clock };
            l.insert(i, c);
            assert(list_view(l@) =~= lv.update(i as int, (w@, (lv[i as int].1 + 1) as u32, clock)));
        },
        None => {
            let c = Choice { word: copy_string(word), count: 1, last: clock };
            l.push(c);
            assert(list_view(l@) =~= lv.push((w@, 1u32, clock)));
        },
    }
    let mut s = sorted_by_last(&l);
    if s.len() > 4 {
        let ghost sv = list_view(s@);
        s.truncate(4);
        assert(list_view(s@) =~= sv.take(4));
    }
    s
}

proof fn lemma_put_lens(s: Seq<(Seq<char>, Seq<ChoiceV>)>, k: Seq<char>, l: Seq<ChoiceV>)
    requires
        forall|i: int| 0 <= i < s.len() ==> (#[trigger] s[i]).1.len() <= 255,
        l.len() <= 255,
    ensures
        forall|i: int| 0 <= i < put(s, k, l).len() ==> (#[trigger] put(s, k, l)[i]).1.len() <= 255,
{
    let p = key_pos(skeys(s), k);
    lemma_key_pos(skeys(s), k);
    let r = put(s, k, l);
    assert forall|i: int| 0 <= i < r.len() implies (#[trigger] r[i]).1.len() <= 255 by {
        if has_key(skeys(s), k) {
            if i != p {
                assert(r[i] == s[i]);
            }
        } else {
            if i < p {
                assert(r[i] == s[i]);
            } else if i > p {
                assert(r[i] == s[i - 1]);
            }
        }
    }
}

impl MemoryUser {
    /// Sets the choices of `key` to `l`.
    fn put_choices(&mut self, k: &[char], key: &str, l: Vec<Choice>)
        requires
            k@ == key@,
            l@.len() <= 255,
            user_wf(old(self).view()),
        ensures
            final(self).view() == (UserView {
                choices: put(old(self).view().choices, k@, list_view(l@)),
                ..old(self).view()
            }),
            user_wf(final(self).view()),
    {
        let ghost v = self.view();
        proof {
            lemma_keys_match(self.choices@, v.choices);
            lemma_put_sorted(v.choices, k@, list_view(l@));
            lemma_key_pos(skeys(v.choices), k@);
            lemma_put_lens(v.choices, k@, list_view(l@));
        }
        let (p, found) = position(&self.choices, k);
        if found {
            self.choices.remove(p);
        }
        let ghost mid = self.choices@;
        self.choices.insert(p, (copy_string(key), l));
        proof {
            if found {
                assert(choices_view(self.choices@) =~= v.choices.update(p as int, (k@, list_view(l@))));
            } else {
                assert(choices_view(self.choices@) =~= v.choices.insert(p as int, (k@, list_view(l@))));
            }
        }
    }

    /// One more choice of `word`, for any key.
    fn bump_word(&mut self, w: &[char], word: &str)
        requires
            w@ == word@,
            user_wf(old(self).view()),
            word_count(old(self).view(), w@) < u32::MAX,
        ensures
            final(self).view() == (UserView {
                words: put(old(self).view().words, w@, (word_count(old(self).view(), w@) + 1) as u32),
                ..old(self).view()
            }),
            user_wf(final(self).view()),
    {
        let ghost v = self.view();
        let ghost c1 = (word_count(v, w@) + 1) as u32;
        proof {
            lemma_keys_match(self.words@, v.words);
            lemma_put_sorted(v.words, w@, c1);
            lemma_key_pos(skeys(v.words), w@);
        }
        let (p, found) = position(&self.words, w);
        let mut c: u32 = 1;
        if found {
            let e = self.words.remove(p);
            c = e.1 + 1;
        }
        self.words.insert(p, (copy_string(word), c));
        proof {
            if found {
                assert(counts_view(self.words@) =~= v.words.update(p as int, (w@, c1)));
            } else {
                assert(counts_view(self.words@) =~= v.words.insert(p as int, (w@, c1)));
            }
        }
    }

    /// Forgets the negative evidence against `word` for `key`.
    fn drop_neg(&mut self, k: &[char], w: &[char])
        requires
            user_wf(old(self).view()),
        ensures
            final(self).view() == (UserView {
                neg: pdelete(old(self).view().neg, (k@, w@)),
                ..old(self).view()
            }),
            user_wf(final(self).view()),
            (forall|i: int| 0 <= i < old(self).view().neg.len() ==> (#[trigger] old(self).view().neg[i]).1 < u32::MAX)
                ==> (forall|i: int| 0 <= i < final(self).view().neg.len() ==> (#[trigger] final(self).view().neg[i]).1 < u32::MAX),
    {
        let ghost v = self.view();
        proof {
            lemma_pdelete_sorted(v.neg, (k@, w@));
        }
        let (p, found) = pair_position(&self.neg, k, w);
        if found {
            self.neg.remove(p);
            assert(neg_view(self.neg@) =~= v.neg.remove(p as int));
            let ghost n = self.view().neg;
            assert forall|i: int| 0 <= i < n.len() implies n[i] == (if i < p { v.neg[i] } else { v.neg[i + 1] }) by {}
        }
    }

    /// One more piece of negative evidence against `word` for `key`.
    fn bump_neg(&mut self, k: &[char], w: &[char], key: &str, word: &str)
        requires
            k@ == key@,
            w@ == word@,
            user_wf(old(self).view()),
            neg_count(old(self).view().neg, k@, w@) < u32::MAX,
        ensures
            final(self).view() == (UserView {
                neg: pput(old(self).view().neg, (k@, w@), (neg_count(old(self).view().neg, k@, w@) + 1) as u32),
                ..old(self).view()
            }),
            user_wf(final(self).view()),
    {
        let ghost v = self.view();
        let ghost c1 = (neg_count(v.neg, k@, w@) + 1) as u32;
        proof {
            lemma_pput_sorted(v.neg, (k@, w@), c1);
            lemma_ppos_from(pkeys(v.neg), (k@, w@), 0);
        }
        let (p, found) = pair_position(&self.neg, k, w);
        let mut c: u32 = 1;
        if found {
            let e = self.neg.remove(p);
            c = e.1 + 1;
        }
        self.neg.insert(p, ((copy_string(key), copy_string(word)), c));
        proof {
            if found {
                assert(neg_view(self.neg@) =~= v.neg.update(p as int, ((k@, w@), c1)));
            } else {
                assert(neg_view(self.neg@) =~= v.neg.insert(p as int, ((k@, w@), c1)));
            }
        }
    }

    /// Records a commit: `word` (a base form, or `RAW_LATIN`) chosen for `key` at `rank`, `top`
    /// being the rank-1 base form. Keys longer than 32 UTF-8 bytes are not learned.
    #[verifier::spinoff_prover]
    pub fn record(&mut self, key: &str, word: &str, rank: usize, navigated: bool, top: Option<&str>)
        requires
            old(self).wf(),
            has_room(old(self).view()),
        ensures
            final(self).wf(),
            final(self).view() == spec_record(
                old(self).view(),
                key@,
                word@,
                rank,
                navigated,
                match top {
                    Some(t) => Some(t@),
                    None => None,
                },
            ),
    {
        if key.as_bytes().len() > 32 {
            return;
        }
        let ghost v = self.view();
        let k = chars_of(key);
        let w = chars_of(word);
        let clock = self.clock + 1;
        let l = self.list_for(k.as_slice());
        proof {
            lemma_keys_match(self.choices@, v.choices);
            lemma_key_pos(skeys(v.choices), k@);
            if has_key(skeys(v.choices), k@) {
                let p = key_pos(skeys(v.choices), k@);
                assert(list_view(l@) == v.choices[p].1);
                assert forall|j: int| 0 <= j < l@.len() implies (#[trigger] l@[j]).count < u32::MAX by {
                    assert(list_view(l@)[j] == choice_view(l@[j]));
                    assert(list_view(l@)[j] == v.choices[p].1[j]);
                    assert(v.choices[p].1[j].1 < u32::MAX);
                }
            }
        }
        let newl = chosen(l, w.as_slice(), word, clock);
        proof {
            lemma_keys_match(self.words@, v.words);
            lemma_key_pos(skeys(v.words), w@);
            if has_key(skeys(v.words), w@) {
                let p = key_pos(skeys(v.words), w@);
                assert(v.words[p].1 < u32::MAX);
            }
        }
        self.put_choices(k.as_slice(), key, newl);
        self.bump_word(w.as_slice(), word);
        self.drop_neg(k.as_slice(), w.as_slice());
        match top {
            Some(t) => {
                if rank > 0 && navigated && !crate::text::str_eq(t, word) {
                    let tc = chars_of(t);
                    proof {
                        let n1 = self.view().neg;
                        lemma_ppos_from(pkeys(n1), (k@, tc@), 0);
                        if has_pair(n1, (k@, tc@)) {
                            assert(n1[ppos(n1, (k@, tc@))].1 < u32::MAX);
                        }
                    }
                    self.bump_neg(k.as_slice(), tc.as_slice(), key, t);
                }
            },
            None => {},
        }
        self.clock = clock;
        assert(self.view() =~= spec_record(
            v,
            key@,
            word@,
            rank,
            navigated,
            match top {
                Some(t) => Some(t@),
                None => None,
            },
        ));
    }

    /// Replays negative evidence: `word` was rank 1 for `key` and the user navigated past it.
    /// Only the negative evidence is recorded, never a choice.
    pub fn record_negative(&mut self, key: &str, word: &str)
        requires
            old(self).wf(),
            has_room(old(self).view()),
        ensures
            final(self).wf(),
            final(self).view() == spec_record_negative(old(self).view(), key@, word@),
    {
        if key.as_bytes().len() > 32 || word.is_empty() {
            return;
        }
        let ghost v = self.view();
        let k = chars_of(key);
        let w = chars_of(word);
        proof {
            lemma_ppos_from(pkeys(v.neg), (k@, w@), 0);
            if has_pair(v.neg, (k@, w@)) {
                assert(v.neg[ppos(v.neg, (k@, w@))].1 < u32::MAX);
            }
        }
        self.bump_neg(k.as_slice(), w.as_slice(), key, word);
        assert(self.view() =~= spec_record_negative(v, key@, word@));
    }
}

// ---------------------------------------------------------------------------------------------
// Eviction: keep the most recently used keys.

/// The most recent use among the choices `l` (0 when there are none).
pub open spec fn list_max(l: Seq<ChoiceV>) -> u64
    decreases l.len(),
{
    if l.len() == 0 {
        0
    } else {
        let m = list_max(l.drop_last());
        if l.last().2 > m {
            l.last().2
        } else {
            m
        }
    }
}

/// The most recent use of each key.
pub open spec fn key_lasts(cs: Seq<(Seq<char>, Seq<ChoiceV>)>) -> Seq<u64> {
    cs.map_values(|e: (Seq<char>, Seq<ChoiceV>)| list_max(e.1))
}

/// How many of `s` are at least `x`.
pub open spec fn count_ge(s: Seq<u64>, x: int) -> nat
    decreases s.len(),
{
    if s.len() == 0 {
        0
    } else {
        count_ge(s.drop_last(), x) + if s.last() >= x {
            1nat
        } else {
            0nat
        }
    }
}

/// A key stays when fewer than `k` keys were used more recently than it.
pub open spec fn stays(lasts: Seq<u64>, m: u64, k: int) -> bool {
    count_ge(lasts, m + 1) < k
}

/// The entries among the first `n` of `cs` that stay.
pub open spec fn kept_keys(cs: Seq<(Seq<char>, Seq<ChoiceV>)>, k: int, n: int) -> Seq<
    (Seq<char>, Seq<ChoiceV>),
>
    decreases n,
{
    if n <= 0 {
        Seq::empty()
    } else {
        let r = kept_keys(cs, k, n - 1);
        if stays(key_lasts(cs), list_max(cs[n - 1].1), k) {
            r.push(cs[n - 1])
        } else {
            r
        }
    }
}

/// The negative evidence among the first `n` of `neg` whose key is among `keys`.
pub open spec fn kept_neg(neg: Seq<((Seq<char>, Seq<char>), u32)>, keys: Seq<Seq<char>>, n: int) -> Seq<
    ((Seq<char>, Seq<char>), u32),
>
    decreases n,
{
    if n <= 0 {
        Seq::empty()
    } else {
        let r = kept_neg(neg, keys, n - 1);
        if keys.contains(neg[n - 1].0.0) {
            r.push(neg[n - 1])
        } else {
            r
        }
    }
}

/// Keep the `max_keys` most recently used keys: a key stays when fewer than `max_keys` keys were
/// used more recently than it (ties all stay), and negative evidence stays with its key.
pub open spec fn spec_evict(v: UserView, max_keys: int) -> UserView {
    if v.choices.len() <= max_keys {
        v
    } else {
        let kept = kept_keys(v.choices, max_keys, v.choices.len() as int);
        UserView { choices: kept, neg: kept_neg(v.neg, skeys(kept), v.neg.len() as int), ..v }
    }
}

proof fn lemma_count_ge_mono(s: Seq<u64>, a: int, b: int)
    requires
        a <= b,
    ensures
        count_ge(s, b) <= count_ge(s, a),
    decreases s.len(),
{
    if s.len() > 0 {
        lemma_count_ge_mono(s.drop_last(), a, b);
    }
}

proof fn lemma_count_ge_top(s: Seq<u64>)
    ensures
        count_ge(s, 0x1_0000_0000_0000_0000) == 0,
        count_ge(s, 0) == s.len(),
    decreases s.len(),
{
    if s.len() > 0 {
        lemma_count_ge_top(s.drop_last());
    }
}

proof fn lemma_kept_keys(cs: Seq<(Seq<char>, Seq<ChoiceV>)>, k: int, n: int)
    requires
        sorted_keys(skeys(cs)),
        0 <= n <= cs.len(),
        forall|i: int| 0 <= i < cs.len() ==> (#[trigger] cs[i]).1.len() <= 255,
    ensures
        sorted_keys(skeys(kept_keys(cs, k, n))),
        forall|i: int|
            0 <= i < kept_keys(cs, k, n).len() ==> exists|j: int|
                0 <= j < n && (#[trigger] kept_keys(cs, k, n)[i]) == cs[j],
        forall|i: int| 0 <= i < kept_keys(cs, k, n).len() ==> (#[trigger] kept_keys(cs, k, n)[i]).1.len() <= 255,
    decreases n,
{
    if n > 0 {
        lemma_kept_keys(cs, k, n - 1);
        let r = kept_keys(cs, k, n - 1);
        let r2 = kept_keys(cs, k, n);
        if stays(key_lasts(cs), list_max(cs[n - 1].1), k) {
            assert forall|i: int| 0 <= i < r2.len() implies exists|j: int|
                0 <= j < n && (#[trigger] r2[i]) == cs[j] by {
                if i < r.len() {
                    assert(r2[i] == r[i]);
                } else {
                    assert(r2[i] == cs[n - 1]);
                }
            }
            assert forall|a: int, b: int| 0 <= a < b < skeys(r2).len() implies crate::keyed::str_lt(
                #[trigger] skeys(r2)[a],
                #[trigger] skeys(r2)[b],
            ) by {
                if b < r.len() {
                    assert(skeys(r2)[a] == skeys(r)[a]);
                    assert(skeys(r2)[b] == skeys(r)[b]);
                } else {
                    let j = choose|j: int| 0 <= j < n - 1 && r[a] == cs[j];
                    assert(skeys(cs)[j] == cs[j].0);
                    assert(skeys(cs)[n - 1] == cs[n - 1].0);
                    assert(crate::keyed::str_lt(skeys(cs)[j], skeys(cs)[n - 1]));
                }
            }
        } else {
            assert(r2 == r);
        }
    }
}

proof fn lemma_kept_neg(neg: Seq<((Seq<char>, Seq<char>), u32)>, keys: Seq<Seq<char>>, n: int)
    requires
        sorted_pairs(pkeys(neg)),
        0 <= n <= neg.len(),
    ensures
        sorted_pairs(pkeys(kept_neg(neg, keys, n))),
        forall|i: int|
            0 <= i < kept_neg(neg, keys, n).len() ==> exists|j: int|
                0 <= j < n && (#[trigger] kept_neg(neg, keys, n)[i]) == neg[j],
    decreases n,
{
    if n > 0 {
        lemma_kept_neg(neg, keys, n - 1);
        let r = kept_neg(neg, keys, n - 1);
        let r2 = kept_neg(neg, keys, n);
        if keys.contains(neg[n - 1].0.0) {
            assert forall|i: int| 0 <= i < r2.len() implies exists|j: int|
                0 <= j < n && (#[trigger] r2[i]) == neg[j] by {
                if i < r.len() {
                    assert(r2[i] == r[i]);
                } else {
                    assert(r2[i] == neg[n - 1]);
                }
            }
            assert forall|a: int, b: int| 0 <= a < b < pkeys(r2).len() implies crate::keyed::pair_lt(
                #[trigger] pkeys(r2)[a],
                #[trigger] pkeys(r2)[b],
            ) by {
                if b < r.len() {
                    assert(pkeys(r2)[a] == pkeys(r)[a]);
                    assert(pkeys(r2)[b] == pkeys(r)[b]);
                } else {
                    let j = choose|j: int| 0 <= j < n - 1 && r[a] == neg[j];
                    assert(pkeys(neg)[j] == neg[j].0);
                    assert(pkeys(neg)[n - 1] == neg[n - 1].0);
                }
            }
        } else {
            assert(r2 == r);
        }
    }
}

/// How many of `s` are at least `x`.
fn count_at_least(s: &Vec<u64>, x: u64) -> (r: usize)
    ensures
        r == count_ge(s@, x as int),
{
    let mut c: usize = 0;
    let mut i: usize = 0;
    while i < s.len()
        invariant
            i <= s@.len(),
            c <= i,
            c == count_ge(s@.take(i as int), x as int),
        decreases s.len() - i,
    {
        assert(s@.take(i + 1).drop_last() =~= s@.take(i as int));
        if s[i] >= x {
            c += 1;
        }
        i += 1;
    }
    assert(s@.take(s@.len() as int) =~= s@);
    c
}

fn list_max_of(l: &Vec<Choice>) -> (r: u64)
    ensures
        r == list_max(list_view(l@)),
{
    let ghost lv = list_view(l@);
    let mut m: u64 = 0;
    let mut i: usize = 0;
    while i < l.len()
        invariant
            i <= l@.len(),
            lv == list_view(l@),
            m == list_max(lv.take(i as int)),
        decreases l.len() - i,
    {
        assert(lv.take(i + 1).drop_last() =~= lv.take(i as int));
        assert(lv[i as int].2 == l@[i as int].last);
        if l[i].last > m {
            m = l[i].last;
        }
        i += 1;
    }
    assert(lv.take(l@.len() as int) =~= lv);
    m
}

fn copy_list(l: &Vec<Choice>) -> (r: Vec<Choice>)
    ensures
        list_view(r@) == list_view(l@),
{
    let mut r: Vec<Choice> = Vec::new();
    let mut j: usize = 0;
    while j < l.len()
        invariant
            j <= l@.len(),
            r@.len() == j,
            forall|t: int| 0 <= t < j ==> choice_view(#[trigger] r@[t]) == choice_view(l@[t]),
        decreases l.len() - j,
    {
        let c = copy_choice(&l[j]);
        r.push(c);
        j += 1;
    }
    assert(list_view(r@) =~= list_view(l@));
    r
}

/// The most recent use of each key of `cs`.
fn lasts_of(cs: &Vec<(String, Vec<Choice>)>) -> (r: Vec<u64>)
    ensures
        r@ == key_lasts(choices_view(cs@)),
{
    let ghost cv = choices_view(cs@);
    let n = cs.len();
    let mut lasts: Vec<u64> = Vec::new();
    let mut i: usize = 0;
    while i < n
        invariant
            i <= n,
            n == cs@.len(),
            cv == choices_view(cs@),
            lasts@ == key_lasts(cv).take(i as int),
        decreases n - i,
    {
        let m = list_max_of(&cs[i].1);
        lasts.push(m);
        assert(lasts@ =~= key_lasts(cv).take(i + 1));
        i += 1;
    }
    assert(lasts@ =~= key_lasts(cv));
    lasts
}

/// The latest time `t` such that at least `k` of `lasts` are at or after `t`.
fn cutoff(lasts: &Vec<u64>, k: usize) -> (t: u64)
    requires
        k >= 1,
        lasts@.len() >= k,
    ensures
        count_ge(lasts@, t as int) >= k,
        count_ge(lasts@, t + 1) < k,
{
    proof {
        lemma_count_ge_top(lasts@);
    }
    let mut lo: u64 = 0;
    let mut hi: u128 = 0x1_0000_0000_0000_0000u128;
    while hi - (lo as u128) > 1
        invariant
            (lo as u128) < hi <= 0x1_0000_0000_0000_0000u128,
            count_ge(lasts@, lo as int) >= k,
            count_ge(lasts@, hi as int) < k,
        decreases hi - (lo as u128),
    {
        let mid: u128 = (lo as u128) + (hi - (lo as u128)) / 2;
        let m = mid as u64;
        if count_at_least(lasts, m) >= k {
            lo = m;
        } else {
            hi = mid;
        }
    }
    lo
}

/// The entries of `cs` whose most recent use is at or after `t`.
fn keep_recent(cs: &Vec<(String, Vec<Choice>)>, lasts: &Vec<u64>, t: u64, k: usize) -> (r: Vec<
    (String, Vec<Choice>),
>)
    requires
        lasts@ == key_lasts(choices_view(cs@)),
        count_ge(lasts@, t as int) >= k,
        count_ge(lasts@, t + 1) < k,
    ensures
        choices_view(r@) == kept_keys(choices_view(cs@), k as int, cs@.len() as int),
{
    let ghost cv = choices_view(cs@);
    let ghost ls = lasts@;
    let n = cs.len();
    let mut kept: Vec<(String, Vec<Choice>)> = Vec::new();
    let mut i: usize = 0;
    while i < n
        invariant
            i <= n,
            n == cs@.len(),
            cv == choices_view(cs@),
            ls == lasts@,
            ls == key_lasts(cv),
            ls.len() == n,
            count_ge(ls, t as int) >= k,
            count_ge(ls, t + 1) < k,
            choices_view(kept@) == kept_keys(cv, k as int, i as int),
        decreases n - i,
    {
        let ghost before = kept@;
        proof {
            assert(ls[i as int] == list_max(cv[i as int].1));
            if ls[i as int] >= t {
                lemma_count_ge_mono(ls, t + 1, ls[i as int] + 1);
            } else {
                lemma_count_ge_mono(ls, ls[i as int] + 1, t as int);
            }
        }
        if lasts[i] >= t {
            let e = (cs[i].0.clone(), copy_list(&cs[i].1));
            kept.push(e);
            assert(choices_view(kept@) =~= choices_view(before).push(cv[i as int]));
        }
        i += 1;
    }
    kept
}

/// The negative evidence of `neg` whose key is in `kept` (whose keys are sorted).
fn keep_neg(neg: &Vec<((String, String), u32)>, kept: &Vec<(String, Vec<Choice>)>) -> (r: Vec<
    ((String, String), u32),
>)
    requires
        sorted_keys(skeys(choices_view(kept@))),
    ensures
        neg_view(r@) == kept_neg(neg_view(neg@), skeys(choices_view(kept@)), neg@.len() as int),
{
    let ghost kv = choices_view(kept@);
    let ghost nv = neg_view(neg@);
    proof {
        lemma_keys_match(kept@, kv);
    }
    let mut out: Vec<((String, String), u32)> = Vec::new();
    let mut i: usize = 0;
    while i < neg.len()
        invariant
            i <= neg@.len(),
            nv == neg_view(neg@),
            kv == choices_view(kept@),
            keys_of(kept@) == skeys(kv),
            sorted_keys(skeys(kv)),
            neg_view(out@) == kept_neg(nv, skeys(kv), i as int),
        decreases neg.len() - i,
    {
        let k = chars_of(neg[i].0.0.as_str());
        let (_p, found) = position(kept, k.as_slice());
        proof {
            lemma_sorted_find(skeys(kv), k@);
        }
        let ghost before = out@;
        if found {
            let e = ((neg[i].0.0.clone(), neg[i].0.1.clone()), neg[i].1);
            out.push(e);
            assert(neg_view(out@) =~= neg_view(before).push(nv[i as int]));
        }
        i += 1;
    }
    out
}

proof fn lemma_kept_none(cs: Seq<(Seq<char>, Seq<ChoiceV>)>, n: int)
    ensures
        kept_keys(cs, 0, n) == Seq::<(Seq<char>, Seq<ChoiceV>)>::empty(),
    decreases n,
{
    if n > 0 {
        lemma_kept_none(cs, n - 1);
    }
}

proof fn lemma_kept_neg_none(neg: Seq<((Seq<char>, Seq<char>), u32)>, n: int)
    ensures
        kept_neg(neg, Seq::empty(), n) == Seq::<((Seq<char>, Seq<char>), u32)>::empty(),
    decreases n,
{
    if n > 0 {
        lemma_kept_neg_none(neg, n - 1);
    }
}

proof fn lemma_kept_members(cs: Seq<(Seq<char>, Seq<ChoiceV>)>, k: int, n: int)
    requires
        0 <= n <= cs.len(),
    ensures
        forall|i: int|
            0 <= i < kept_keys(cs, k, n).len() ==> cs.take(n).contains(#[trigger] kept_keys(cs, k, n)[i])
                && stays(key_lasts(cs), list_max(kept_keys(cs, k, n)[i].1), k),
        forall|j: int|
            0 <= j < n && stays(key_lasts(cs), list_max(cs[j].1), k) ==> #[trigger] kept_keys(
                cs,
                k,
                n,
            ).contains(cs[j]),
    decreases n,
{
    if n > 0 {
        lemma_kept_members(cs, k, n - 1);
        let r = kept_keys(cs, k, n - 1);
        let r2 = kept_keys(cs, k, n);
        assert forall|i: int| 0 <= i < r.len() implies cs.take(n).contains(#[trigger] r[i]) by {
            let t0 = cs.take(n - 1);
            assert(t0.contains(r[i]));
            let j = choose|j: int| 0 <= j < t0.len() && #[trigger] t0[j] == r[i];
            assert(cs.take(n)[j] == r[i]);
        }
        if stays(key_lasts(cs), list_max(cs[n - 1].1), k) {
            assert forall|i: int| 0 <= i < r2.len() implies cs.take(n).contains(#[trigger] r2[i]) && stays(
                key_lasts(cs),
                list_max(r2[i].1),
                k,
            ) by {
                if i < r.len() {
                    assert(r2[i] == r[i]);
                } else {
                    assert(r2[i] == cs[n - 1]);
                    assert(cs.take(n)[n - 1] == cs[n - 1]);
                }
            }
            assert forall|j: int| 0 <= j < n && stays(key_lasts(cs), list_max(cs[j].1), k) implies #[trigger] r2.contains(
                cs[j],
            ) by {
                if j < n - 1 {
                    assert(r.contains(cs[j]));
                    let i = choose|i: int| 0 <= i < r.len() && r[i] == cs[j];
                    assert(r2[i] == cs[j]);
                } else {
                    assert(r2[r.len() as int] == cs[j]);
                }
            }
        } else {
            assert(r2 == r);
        }
    } else {
        assert(kept_keys(cs, k, n) =~= Seq::<(Seq<char>, Seq<ChoiceV>)>::empty());
    }
}

proof fn lemma_kept_neg_keys(neg: Seq<((Seq<char>, Seq<char>), u32)>, keys: Seq<Seq<char>>, n: int)
    requires
        0 <= n <= neg.len(),
    ensures
        forall|i: int| 0 <= i < kept_neg(neg, keys, n).len() ==> keys.contains(#[trigger] kept_neg(neg, keys, n)[i].0.0),
    decreases n,
{
    if n > 0 {
        lemma_kept_neg_keys(neg, keys, n - 1);
        let r = kept_neg(neg, keys, n - 1);
        let r2 = kept_neg(neg, keys, n);
        if keys.contains(neg[n - 1].0.0) {
            assert forall|i: int| 0 <= i < r2.len() implies keys.contains(#[trigger] r2[i].0.0) by {
                if i < r.len() {
                    assert(r2[i] == r[i]);
                }
            }
        }
    }
}

/// How many of `t` stay among `all` when `k` are kept.
pub open spec fn stay_count(t: Seq<u64>, all: Seq<u64>, k: int) -> nat
    decreases t.len(),
{
    if t.len() == 0 {
        0
    } else {
        stay_count(t.drop_last(), all, k) + if stays(all, t.last(), k) {
            1nat
        } else {
            0nat
        }
    }
}

/// No two of `s` are equal.
pub open spec fn all_distinct(s: Seq<u64>) -> bool {
    forall|i: int, j: int| 0 <= i < s.len() && 0 <= j < s.len() && i != j ==> s[i] != s[j]
}

proof fn lemma_kept_len(cs: Seq<(Seq<char>, Seq<ChoiceV>)>, k: int, n: int)
    requires
        0 <= n <= cs.len(),
    ensures
        kept_keys(cs, k, n).len() == stay_count(key_lasts(cs).take(n), key_lasts(cs), k),
    decreases n,
{
    let t = key_lasts(cs).take(n);
    if n > 0 {
        lemma_kept_len(cs, k, n - 1);
        assert(t.drop_last() =~= key_lasts(cs).take(n - 1));
        assert(t.last() == list_max(cs[n - 1].1));
    }
}

proof fn lemma_stay_count_remove(t: Seq<u64>, all: Seq<u64>, k: int, p: int)
    requires
        0 <= p < t.len(),
    ensures
        stay_count(t, all, k) == stay_count(t.remove(p), all, k) + if stays(all, t[p], k) {
            1nat
        } else {
            0nat
        },
    decreases t.len(),
{
    if p == t.len() - 1 {
        assert(t.remove(p) =~= t.drop_last());
    } else {
        lemma_stay_count_remove(t.drop_last(), all, k, p);
        assert(t.remove(p).drop_last() =~= t.drop_last().remove(p));
        assert(t.remove(p).last() == t.last());
    }
}

proof fn lemma_count_ge_remove(s: Seq<u64>, x: int, p: int)
    requires
        0 <= p < s.len(),
    ensures
        count_ge(s, x) == count_ge(s.remove(p), x) + if s[p] >= x {
            1nat
        } else {
            0nat
        },
    decreases s.len(),
{
    if p == s.len() - 1 {
        assert(s.remove(p) =~= s.drop_last());
    } else {
        lemma_count_ge_remove(s.drop_last(), x, p);
        assert(s.remove(p).drop_last() =~= s.drop_last().remove(p));
        assert(s.remove(p).last() == s.last());
    }
}

proof fn lemma_count_ge_none(s: Seq<u64>, x: int)
    requires
        forall|i: int| 0 <= i < s.len() ==> s[i] < x,
    ensures
        count_ge(s, x) == 0,
    decreases s.len(),
{
    if s.len() > 0 {
        lemma_count_ge_none(s.drop_last(), x);
    }
}

proof fn lemma_stay_count_same(t: Seq<u64>, a1: Seq<u64>, k1: int, a2: Seq<u64>, k2: int)
    requires
        forall|i: int| 0 <= i < t.len() ==> stays(a1, #[trigger] t[i], k1) == stays(a2, t[i], k2),
    ensures
        stay_count(t, a1, k1) == stay_count(t, a2, k2),
    decreases t.len(),
{
    if t.len() > 0 {
        let t0 = t.drop_last();
        assert forall|i: int| 0 <= i < t0.len() implies stays(a1, #[trigger] t0[i], k1) == stays(a2, t0[i], k2) by {
            assert(t0[i] == t[i]);
        }
        lemma_stay_count_same(t0, a1, k1, a2, k2);
        assert(stays(a1, t[t.len() - 1], k1) == stays(a2, t[t.len() - 1], k2));
    }
}

proof fn lemma_stay_count_zero(t: Seq<u64>, all: Seq<u64>)
    ensures
        stay_count(t, all, 0) == 0,
    decreases t.len(),
{
    if t.len() > 0 {
        lemma_stay_count_zero(t.drop_last(), all);
    }
}

proof fn lemma_max_index(s: Seq<u64>) -> (p: int)
    requires
        s.len() > 0,
    ensures
        0 <= p < s.len(),
        forall|i: int| 0 <= i < s.len() ==> s[i] <= s[p],
    decreases s.len(),
{
    if s.len() == 1 {
        0
    } else {
        let q = lemma_max_index(s.drop_last());
        if s.last() >= s[q] {
            assert forall|i: int| 0 <= i < s.len() implies #[trigger] s[i] <= s[s.len() - 1] by {
                if i < s.len() - 1 {
                    assert(s[i] == s.drop_last()[i]);
                }
            }
            (s.len() - 1) as int
        } else {
            assert forall|i: int| 0 <= i < s.len() implies s[i] <= s[q] by {
                if i < s.len() - 1 {
                    assert(s[i] == s.drop_last()[i]);
                }
            }
            q
        }
    }
}

/// With distinct values, exactly `min(len, k)` of them stay.
proof fn lemma_stay_count_distinct(s: Seq<u64>, k: int)
    requires
        all_distinct(s),
        k >= 0,
    ensures
        stay_count(s, s, k) == if s.len() < k { s.len() as int } else { k },
    decreases s.len(),
{
    if k == 0 {
        lemma_stay_count_zero(s, s);
    } else if s.len() > 0 {
        let p = lemma_max_index(s);
        let m = s[p];
        let s1 = s.remove(p);
        assert forall|i: int| 0 <= i < s.len() implies s[i] < m + 1 by {}
        lemma_count_ge_none(s, m + 1);
        lemma_stay_count_remove(s, s, k, p);
        assert forall|i: int| 0 <= i < s1.len() implies stays(s, #[trigger] s1[i], k) == stays(s1, s1[i], k - 1) by {
            let j = if i < p { i } else { i + 1 };
            assert(s1[i] == s[j]);
            assert(j != p);
            assert(s[j] < m);
            lemma_count_ge_remove(s, s1[i] + 1, p);
        }
        lemma_stay_count_same(s1, s, k, s1, k - 1);
        assert(all_distinct(s1)) by {
            assert forall|a: int, b: int| 0 <= a < s1.len() && 0 <= b < s1.len() && a != b implies s1[a] != s1[b] by {
                let ja = if a < p { a } else { a + 1 };
                let jb = if b < p { b } else { b + 1 };
                assert(s1[a] == s[ja]);
                assert(s1[b] == s[jb]);
            }
        }
        lemma_stay_count_distinct(s1, k - 1);
    }
}

/// When no two keys were last used at the same moment, eviction keeps exactly
/// `min(keys, max_keys)` of them.
pub proof fn law_evict_keeps_count(v: UserView, max_keys: int)
    requires
        user_wf(v),
        max_keys >= 0,
        all_distinct(key_lasts(v.choices)),
    ensures
        spec_evict(v, max_keys).choices.len() == if v.choices.len() < max_keys {
            v.choices.len() as int
        } else {
            max_keys
        },
{
    let cs = v.choices;
    if cs.len() > max_keys {
        lemma_kept_len(cs, max_keys, cs.len() as int);
        assert(key_lasts(cs).take(cs.len() as int) =~= key_lasts(cs));
        lemma_stay_count_distinct(key_lasts(cs), max_keys);
    }
}

/// Eviction keeps the most recently used keys: every key it keeps is kept unchanged and was
/// used more recently than every key it drops; a dropped key has no pinned choice and no
/// negative evidence left; a model with at most `max_keys` keys is left as it is.
pub proof fn law_evict_keeps_most_recent(v: UserView, max_keys: int)
    requires
        user_wf(v),
        max_keys >= 0,
    ensures
        v.choices.len() <= max_keys ==> spec_evict(v, max_keys) == v,
        forall|i: int|
            0 <= i < spec_evict(v, max_keys).choices.len() ==> v.choices.contains(
                #[trigger] spec_evict(v, max_keys).choices[i],
            ),
        forall|a: int, b: int|
            0 <= a < v.choices.len() && 0 <= b < v.choices.len() && spec_evict(v, max_keys).choices.contains(
                #[trigger] v.choices[a],
            ) && !spec_evict(v, max_keys).choices.contains(#[trigger] v.choices[b]) ==> list_max(
                v.choices[b].1,
            ) < list_max(v.choices[a].1),
        forall|b: int|
            0 <= b < v.choices.len() && !spec_evict(v, max_keys).choices.contains(#[trigger] v.choices[b])
                ==> spec_sticky(spec_evict(v, max_keys), v.choices[b].0) is None && forall|i: int|
                0 <= i < spec_evict(v, max_keys).neg.len() ==> (#[trigger] spec_evict(v, max_keys).neg[i]).0.0
                    != v.choices[b].0,
{
    let cs = v.choices;
    let r = spec_evict(v, max_keys);
    if cs.len() > max_keys {
        let n = cs.len() as int;
        let kept = kept_keys(cs, max_keys, n);
        let lasts = key_lasts(cs);
        lemma_kept_members(cs, max_keys, n);
        lemma_kept_keys(cs, max_keys, n);
        lemma_kept_neg_keys(v.neg, skeys(kept), v.neg.len() as int);
        assert(cs.take(n) =~= cs);
        assert forall|a: int, b: int|
            0 <= a < cs.len() && 0 <= b < cs.len() && kept.contains(#[trigger] cs[a]) && !kept.contains(#[trigger] cs[b])
                implies list_max(cs[b].1) < list_max(cs[a].1) by {
            let i = choose|i: int| 0 <= i < kept.len() && kept[i] == cs[a];
            assert(stays(lasts, list_max(kept[i].1), max_keys));
            if list_max(cs[b].1) >= list_max(cs[a].1) {
                lemma_count_ge_mono(lasts, list_max(cs[a].1) + 1, list_max(cs[b].1) + 1);
                assert(stays(lasts, list_max(cs[b].1), max_keys));
            }
        }
        assert forall|b: int| 0 <= b < cs.len() && !kept.contains(#[trigger] cs[b]) implies spec_sticky(
            r,
            cs[b].0,
        ) is None && forall|i: int| 0 <= i < r.neg.len() ==> (#[trigger] r.neg[i]).0.0 != cs[b].0 by {
            let key = cs[b].0;
            assert(skeys(cs)[b] == key);
            assert(!skeys(kept).contains(key)) by {
                if skeys(kept).contains(key) {
                    let i = choose|i: int| 0 <= i < skeys(kept).len() && skeys(kept)[i] == key;
                    assert(cs.contains(kept[i]));
                    let j = choose|j: int| 0 <= j < cs.len() && cs[j] == kept[i];
                    assert(skeys(cs)[j] == key);
                    lemma_sorted_find(skeys(cs), key);
                    assert(j == b);
                    assert(kept.contains(cs[b]));
                }
            }
            lemma_sorted_find(skeys(kept), key);
            assert(choices_for(r, key) =~= Seq::<ChoiceV>::empty());
            assert forall|i: int| 0 <= i < r.neg.len() implies (#[trigger] r.neg[i]).0.0 != key by {
                assert(skeys(kept).contains(r.neg[i].0.0));
            }
        }
    }
}

impl MemoryUser {
    /// Keeps the `max_keys` most recently used keys (by the latest use of any of their choices),
    /// and only the negative evidence of the keys that stay; with 0, nothing stays.
    pub fn evict(&mut self, max_keys: usize)
        requires
            old(self).wf(),
        ensures
            final(self).wf(),
            final(self).view() == spec_evict(old(self).view(), max_keys as int),
    {
        if self.choices.len() <= max_keys {
            return;
        }
        let ghost v = self.view();
        if max_keys == 0 {
            self.choices = Vec::new();
            self.neg = Vec::new();
            proof {
                lemma_kept_none(v.choices, v.choices.len() as int);
                assert(skeys(Seq::<(Seq<char>, Seq<ChoiceV>)>::empty()) =~= Seq::<Seq<char>>::empty());
                lemma_kept_neg_none(v.neg, v.neg.len() as int);
            }
            assert(self.view() =~= spec_evict(v, max_keys as int));
            return;
        }
        let lasts = lasts_of(&self.choices);
        let t = cutoff(&lasts, max_keys);
        let kept = keep_recent(&self.choices, &lasts, t, max_keys);
        proof {
            lemma_kept_keys(v.choices, max_keys as int, v.choices.len() as int);
        }
        let neg = keep_neg(&self.neg, &kept);
        proof {
            lemma_kept_neg(v.neg, skeys(choices_view(kept@)), v.neg.len() as int);
        }
        self.choices = kept;
        self.neg = neg;
        assert(self.view() =~= spec_evict(v, max_keys as int));
    }
}

impl MemoryUser {
    /// The snapshot of the model (see `snapshot` for the layout).
    pub fn encode_snapshot(&self, mark: SnapshotMark) -> (r: Vec<u8>)
        requires
            encodable(self.view()),
        ensures
            r@ == spec_snapshot(self.view(), mark),
    {
        let ghost v = self.view();
        proof {
            assert forall|i: int| 0 <= i < self.choices@.len() implies (#[trigger] self.choices@[i]).1@.len() <= 255 by {
                assert(v.choices[i].1 == list_view(self.choices@[i].1@));
            }
        }
        let mut out: Vec<u8> = Vec::new();
        push_u32(&mut out, SNAPSHOT_MAGIC);
        push_u64(&mut out, mark.consumed);
        push_u64(&mut out, mark.prefix_hash);
        push_u64(&mut out, self.clock);
        let (kb, kn) = encode_keys(&self.choices);
        push_u32(&mut out, kn);
        push_all(&mut out, kb.as_slice());
        let (nb, nn) = encode_neg(&self.neg);
        push_u32(&mut out, nn);
        push_all(&mut out, nb.as_slice());
        let (wb, wn) = encode_words(&self.words);
        push_u32(&mut out, wn);
        push_all(&mut out, wb.as_slice());
        proof {
            reveal(crate::bytes::field32);
            reveal(crate::bytes::field64);
        }
        assert(out@ =~= snapshot_body(v, mark));
        let sum = fnv64(out.as_slice());
        push_u64(&mut out, sum);
        out
    }
}

impl MemoryUser {
    /// Sets the negative evidence against `word` for `key` to `c`.
    fn set_neg(&mut self, k: &[char], w: &[char], key: &str, word: &str, c: u32)
        requires
            k@ == key@,
            w@ == word@,
            user_wf(old(self).view()),
        ensures
            final(self).view() == (UserView { neg: pput(old(self).view().neg, (k@, w@), c), ..old(self).view() }),
            user_wf(final(self).view()),
    {
        let ghost v = self.view();
        proof {
            lemma_pput_sorted(v.neg, (k@, w@), c);
            lemma_ppos_from(pkeys(v.neg), (k@, w@), 0);
        }
        let (p, found) = pair_position(&self.neg, k, w);
        if found {
            self.neg.remove(p);
        }
        self.neg.insert(p, ((copy_string(key), copy_string(word)), c));
        proof {
            if found {
                assert(neg_view(self.neg@) =~= v.neg.update(p as int, ((k@, w@), c)));
            } else {
                assert(neg_view(self.neg@) =~= v.neg.insert(p as int, ((k@, w@), c)));
            }
        }
    }

    /// Sets the count of `word` to `c`.
    fn set_word(&mut self, w: &[char], word: &str, c: u32)
        requires
            w@ == word@,
            user_wf(old(self).view()),
        ensures
            final(self).view() == (UserView { words: put(old(self).view().words, w@, c), ..old(self).view() }),
            user_wf(final(self).view()),
    {
        let ghost v = self.view();
        proof {
            lemma_keys_match(self.words@, v.words);
            lemma_put_sorted(v.words, w@, c);
            lemma_key_pos(skeys(v.words), w@);
        }
        let (p, found) = position(&self.words, w);
        if found {
            self.words.remove(p);
        }
        self.words.insert(p, (copy_string(word), c));
        proof {
            if found {
                assert(counts_view(self.words@) =~= v.words.update(p as int, (w@, c)));
            } else {
                assert(counts_view(self.words@) =~= v.words.insert(p as int, (w@, c)));
            }
        }
    }

    /// Reads `nk` keys with their choices from position 32 into a model without choices.
    fn decode_keys(&mut self, data: &[u8], nk: u32) -> (r: Option<usize>)
        requires
            user_wf(old(self).view()),
            old(self).view().choices.len() == 0,
        ensures
            user_wf(final(self).view()),
            match read_keys(data@, 32, nk as int) {
                Some((cs, q)) => r == Some(q as usize) && final(self).view() == (UserView {
                    choices: cs,
                    ..old(self).view()
                }),
                None => r is None,
            },
    {
        let ghost d = data@;
        let ghost v0 = self.view();
        let mut q: usize = 32;
        let mut i: u32 = 0;
        assert(self.view().choices =~= Seq::<(Seq<char>, Seq<ChoiceV>)>::empty());
        while i < nk
            invariant
                i <= nk,
                d == data@,
                user_wf(self.view()),
                self.view() == (UserView { choices: self.view().choices, ..v0 }),
                read_keys(d, 32, i as int) == Some((self.view().choices, q as int)),
            decreases nk - i,
        {
            let (key, q1) = match read_text_at(data, q) {
                Some(x) => x,
                None => {
                    proof {
                        lemma_read_keys_none(d, 32, i + 1, nk as int);
                    }
                    return None;
                },
            };
            if q1 >= data.len() {
                proof {
                    lemma_read_keys_none(d, 32, i + 1, nk as int);
                }
                return None;
            }
            let n = data[q1];
            let (list, q2) = match read_choices_at(data, q1 + 1, n) {
                Some(x) => x,
                None => {
                    proof {
                        lemma_read_keys_none(d, 32, i + 1, nk as int);
                    }
                    return None;
                },
            };
            proof {
                assert(read_key(d, q as int) == Some(((key@, list_view(list@)), q2 as int)));
                lemma_read_choices_len(d, q1 + 1, n as int);
            }
            let kc = chars_of(key.as_str());
            self.put_choices(kc.as_slice(), key.as_str(), list);
            q = q2;
            i += 1;
        }
        Some(q)
    }

    /// Reads `n` entries of negative evidence from `p` into a model without any.
    fn decode_negs(&mut self, data: &[u8], p: usize, n: u32) -> (r: Option<usize>)
        requires
            user_wf(old(self).view()),
            old(self).view().neg.len() == 0,
        ensures
            user_wf(final(self).view()),
            match read_negs(data@, p as int, n as int) {
                Some((ns, q)) => r == Some(q as usize) && final(self).view() == (UserView {
                    neg: ns,
                    ..old(self).view()
                }),
                None => r is None,
            },
    {
        let ghost d = data@;
        let ghost v0 = self.view();
        let mut q: usize = p;
        let mut i: u32 = 0;
        assert(self.view().neg =~= Seq::<((Seq<char>, Seq<char>), u32)>::empty());
        while i < n
            invariant
                i <= n,
                d == data@,
                user_wf(self.view()),
                self.view() == (UserView { neg: self.view().neg, ..v0 }),
                read_negs(d, p as int, i as int) == Some((self.view().neg, q as int)),
            decreases n - i,
        {
            let (k, qa) = match read_text_at(data, q) {
                Some(x) => x,
                None => {
                    proof {
                        lemma_read_negs_none(d, p as int, i + 1, n as int);
                    }
                    return None;
                },
            };
            let (w, qb) = match read_text_at(data, qa) {
                Some(x) => x,
                None => {
                    proof {
                        lemma_read_negs_none(d, p as int, i + 1, n as int);
                    }
                    return None;
                },
            };
            let (c, qc) = match read_count_at(data, qb) {
                Some(x) => x,
                None => {
                    proof {
                        lemma_read_negs_none(d, p as int, i + 1, n as int);
                    }
                    return None;
                },
            };
            proof {
                assert(read_neg(d, q as int) == Some((((k@, w@), c), qc as int)));
            }
            let kc = chars_of(k.as_str());
            let wc = chars_of(w.as_str());
            self.set_neg(kc.as_slice(), wc.as_slice(), k.as_str(), w.as_str(), c);
            q = qc;
            i += 1;
        }
        Some(q)
    }

    /// Reads `n` word counts from `p` into a model without any.
    fn decode_words(&mut self, data: &[u8], p: usize, n: u32) -> (r: Option<usize>)
        requires
            user_wf(old(self).view()),
            old(self).view().words.len() == 0,
        ensures
            user_wf(final(self).view()),
            match read_words(data@, p as int, n as int) {
                Some((ws, q)) => r == Some(q as usize) && final(self).view() == (UserView {
                    words: ws,
                    ..old(self).view()
                }),
                None => r is None,
            },
    {
        let ghost d = data@;
        let ghost v0 = self.view();
        let mut q: usize = p;
        let mut i: u32 = 0;
        assert(self.view().words =~= Seq::<(Seq<char>, u32)>::empty());
        while i < n
            invariant
                i <= n,
                d == data@,
                user_wf(self.view()),
                self.view() == (UserView { words: self.view().words, ..v0 }),
                read_words(d, p as int, i as int) == Some((self.view().words, q as int)),
            decreases n - i,
        {
            let (w, qa) = match read_text_at(data, q) {
                Some(x) => x,
                None => {
                    proof {
                        lemma_read_words_none(d, p as int, i + 1, n as int);
                    }
                    return None;
                },
            };
            let (c, qb) = match read_count_at(data, qa) {
                Some(x) => x,
                None => {
                    proof {
                        lemma_read_words_none(d, p as int, i + 1, n as int);
                    }
                    return None;
                },
            };
            proof {
                assert(read_word(d, q as int) == Some(((w@, c), qb as int)));
            }
            let wc = chars_of(w.as_str());
            self.set_word(wc.as_slice(), w.as_str(), c);
            q = qb;
            i += 1;
        }
        Some(q)
    }

    /// Parses a snapshot; `None` for anything malformed (bad magic, checksum or bounds).
    pub fn decode_snapshot(bytes: &[u8]) -> (r: Option<(MemoryUser, SnapshotMark)>)
        ensures
            match spec_decode_snapshot(bytes@) {
                Some((v, m)) => r matches Some((u, m2)) && u.view() == v && m2 == m && u.wf(),
                None => r is None,
            },
    {
        let len = bytes.len();
        if len < 44 {
            return None;
        }
        let data = vstd::slice::slice_subrange(bytes, 0, len - 8);
        let ghost d = data@;
        assert(d =~= bytes@.take(bytes@.len() - 8));
        let sum = u64_at(bytes, len - 8);
        if fnv64(data) != sum {
            return None;
        }
        if u32_at(data, 0) != SNAPSHOT_MAGIC {
            return None;
        }
        let mark = SnapshotMark { consumed: u64_at(data, 4), prefix_hash: u64_at(data, 12) };
        let mut u = MemoryUser::new();
        u.clock = u64_at(data, 20);
        let nk = u32_at(data, 28);
        let q = match u.decode_keys(data, nk) {
            Some(q) => q,
            None => return None,
        };
        let (nn, q) = match read_count_at(data, q) {
            Some(x) => x,
            None => return None,
        };
        let q = match u.decode_negs(data, q, nn) {
            Some(q) => q,
            None => return None,
        };
        let (nw, q) = match read_count_at(data, q) {
            Some(x) => x,
            None => return None,
        };
        let q = match u.decode_words(data, q, nw) {
            Some(q) => q,
            None => return None,
        };
        if q != data.len() {
            return None;
        }
        Some((u, mark))
    }
}

proof fn lemma_read_choices_len(d: Seq<u8>, p: int, n: int)
    requires
        0 <= n,
        read_choices(d, p, n) is Some,
    ensures
        read_choices(d, p, n).unwrap().0.len() == n,
    decreases n,
{
    if n > 0 {
        lemma_read_choices_len(d, p, n - 1);
    }
}

// ---------------------------------------------------------------------------------------------
// Laws of the update rules.

/// No choice was used after the clock.
pub open spec fn clock_ahead(v: UserView) -> bool {
    forall|i: int, j: int|
        0 <= i < v.choices.len() && 0 <= j < v.choices[i].1.len() ==> (#[trigger] v.choices[i].1[j]).2
            <= v.clock
}

proof fn lemma_last_pos_range(r: Seq<ChoiceV>, last: u64, i: int)
    requires
        0 <= i <= r.len(),
    ensures
        i <= last_pos(r, last, i) <= r.len(),
        forall|j: int| i <= j < last_pos(r, last, i) ==> (#[trigger] r[j]).2 >= last,
        last_pos(r, last, i) < r.len() ==> r[last_pos(r, last, i)].2 < last,
    decreases r.len() - i,
{
    if i < r.len() && r[i].2 >= last {
        lemma_last_pos_range(r, last, i + 1);
    }
}

/// Sorting keeps the choices: the same number, each one from the list.
proof fn lemma_sort_elems(s: Seq<ChoiceV>)
    ensures
        sort_by_last(s).len() == s.len(),
        forall|k: int| 0 <= k < s.len() ==> exists|j: int| 0 <= j < s.len() && s[j] == #[trigger] sort_by_last(s)[k],
    decreases s.len(),
{
    if s.len() > 0 {
        let t = s.drop_last();
        lemma_sort_elems(t);
        let r = sort_by_last(t);
        lemma_last_pos_range(r, s.last().2, 0);
        let p = last_pos(r, s.last().2, 0);
        let out = sort_by_last(s);
        assert forall|k: int| 0 <= k < s.len() implies exists|j: int| 0 <= j < s.len() && s[j] == #[trigger] out[k] by {
            if k < p {
                assert(out[k] == r[k]);
                let j = choose|j: int| 0 <= j < t.len() && t[j] == r[k];
                assert(s[j] == t[j]);
            } else if k == p {
                assert(out[k] == s[s.len() - 1]);
            } else {
                assert(out[k] == r[k - 1]);
                let j = choose|j: int| 0 <= j < t.len() && t[j] == r[k - 1];
                assert(s[j] == t[j]);
            }
        }
    }
}

/// A choice used later than every other comes first after sorting.
proof fn lemma_sort_front(s: Seq<ChoiceV>, i: int)
    requires
        0 <= i < s.len(),
        forall|j: int| 0 <= j < s.len() && j != i ==> (#[trigger] s[j]).2 < s[i].2,
    ensures
        sort_by_last(s).len() == s.len(),
        sort_by_last(s)[0] == s[i],
    decreases s.len(),
{
    lemma_sort_elems(s);
    let t = s.drop_last();
    let r = sort_by_last(t);
    let e = s[i];
    lemma_sort_elems(t);
    lemma_last_pos_range(r, s.last().2, 0);
    if i == s.len() - 1 {
        if r.len() > 0 {
            let j = choose|j: int| 0 <= j < t.len() && t[j] == r[0];
            assert(s[j] == t[j]);
            assert(r[0].2 < e.2);
        }
    } else {
        assert forall|j: int| 0 <= j < t.len() && j != i implies (#[trigger] t[j]).2 < t[i].2 by {
            assert(t[j] == s[j]);
        }
        lemma_sort_front(t, i);
        assert(s[s.len() - 1].2 < e.2);
    }
}

proof fn lemma_chosen_front(l: Seq<ChoiceV>, w: Seq<char>, clock: u64)
    requires
        forall|j: int| 0 <= j < l.len() ==> (#[trigger] l[j]).2 < clock,
    ensures
        chosen_list(l, w, clock).len() >= 1,
        chosen_list(l, w, clock)[0].0 == w,
        chosen_list(l, w, clock)[0].2 == clock,
{
    let i = find_from(l, w, 0);
    lemma_find_from_range(l, w, 0);
    let bumped = if i >= 0 {
        l.update(i, (w, (l[i].1 + 1) as u32, clock))
    } else {
        l.push((w, 1u32, clock))
    };
    let at = if i >= 0 { i } else { l.len() as int };
    assert forall|j: int| 0 <= j < bumped.len() && j != at implies (#[trigger] bumped[j]).2 < bumped[at].2 by {
        assert(bumped[j] == l[j]);
    }
    lemma_sort_front(bumped, at);
}

proof fn lemma_find_from_range(l: Seq<ChoiceV>, w: Seq<char>, i: int)
    requires
        0 <= i,
    ensures
        -1 <= find_from(l, w, i) < l.len(),
        find_from(l, w, i) >= 0 ==> find_from(l, w, i) >= i,
    decreases l.len() - i,
{
    if i < l.len() && l[i].0 != w {
        lemma_find_from_range(l, w, i + 1);
    }
}

/// What was chosen last for a key is offered first next time: after recording `word` for a
/// learnable `key`, `word` is that key's sticky choice (when no remembered choice is dated after
/// the clock); a key too long to learn leaves the model as it was.
pub proof fn law_record_makes_sticky(
    v: UserView,
    key: Seq<char>,
    word: Seq<char>,
    rank: usize,
    navigated: bool,
    top: Option<Seq<char>>,
)
    requires
        user_wf(v),
        clock_ahead(v),
        v.clock < u64::MAX,
    ensures
        learnable_key(key) ==> spec_sticky(spec_record(v, key, word, rank, navigated, top), key) == Some(word),
        !learnable_key(key) ==> spec_record(v, key, word, rank, navigated, top) == v,
{
    if learnable_key(key) {
        let c = (v.clock + 1) as u64;
        let l = choices_for(v, key);
        let v2 = spec_record(v, key, word, rank, navigated, top);
        lemma_key_pos(skeys(v.choices), key);
        if has_key(skeys(v.choices), key) {
            let p = key_pos(skeys(v.choices), key);
            assert forall|j: int| 0 <= j < l.len() implies (#[trigger] l[j]).2 < c by {
                assert(v.choices[p].1[j].2 <= v.clock);
            }
        }
        lemma_chosen_front(l, word, c);
        let nl = chosen_list(l, word, c);
        lemma_lookup_put(v.choices, key, nl);
        assert(choices_for(v2, key) == nl);
        let neg1 = pdelete(v.neg, (key, word));
        lemma_plookup_pdelete(v.neg, (key, word));
        lemma_pdelete_sorted(v.neg, (key, word));
        match top {
            Some(t) => {
                if rank > 0 && navigated && t != word {
                    lemma_plookup_pput_other(neg1, (key, t), (neg_count(neg1, key, t) + 1) as u32, (key, word));
                }
            },
            None => {},
        }
        assert(neg_count(v2.neg, key, word) == 0);
    }
}

/// Navigating past the pinned choice unpins it: after negative evidence against `word` for
/// `key`, nothing is pinned for `key` if `word` was, and otherwise the pin is as it was; the pins
/// of other keys never change, and an unlearnable key or an empty word changes nothing.
pub proof fn law_negative_unpins(v: UserView, key: Seq<char>, word: Seq<char>, other: Seq<char>)
    requires
        user_wf(v),
        has_room(v),
    ensures
        spec_sticky(spec_record_negative(v, key, word), key) == if learnable_key(key) && word.len() > 0
            && spec_sticky(v, key) == Some(word) {
            None
        } else {
            spec_sticky(v, key)
        },
        other != key ==> spec_sticky(spec_record_negative(v, key, word), other) == spec_sticky(v, other),
        !learnable_key(key) || word.len() == 0 ==> spec_record_negative(v, key, word) == v,
{
    if learnable_key(key) && word.len() > 0 {
        let v2 = spec_record_negative(v, key, word);
        let c = (neg_count(v.neg, key, word) + 1) as u32;
        lemma_ppos_from(pkeys(v.neg), (key, word), 0);
        if has_pair(v.neg, (key, word)) {
            assert(v.neg[ppos(v.neg, (key, word))].1 < u32::MAX);
        }
        assert(choices_for(v2, key) == choices_for(v, key));
        let l = choices_for(v, key);
        if l.len() > 0 {
            if l[0].0 == word {
                lemma_plookup_pput(v.neg, (key, word), c);
            } else {
                lemma_plookup_pput_other(v.neg, (key, word), c, (key, l[0].0));
            }
        }
        assert(choices_for(v2, other) == choices_for(v, other));
        let lo = choices_for(v, other);
        if other != key && lo.len() > 0 {
            lemma_plookup_pput_other(v.neg, (key, word), c, (other, lo[0].0));
        }
    }
}

/// Recording a choice keeps every remembered choice dated no later than the clock.
pub proof fn law_record_keeps_clock_ahead(
    v: UserView,
    key: Seq<char>,
    word: Seq<char>,
    rank: usize,
    navigated: bool,
    top: Option<Seq<char>>,
)
    requires
        user_wf(v),
        clock_ahead(v),
        v.clock < u64::MAX,
    ensures
        clock_ahead(spec_record(v, key, word, rank, navigated, top)),
{
    if learnable_key(key) {
        let c = (v.clock + 1) as u64;
        let l = choices_for(v, key);
        let v2 = spec_record(v, key, word, rank, navigated, top);
        lemma_key_pos(skeys(v.choices), key);
        let p = key_pos(skeys(v.choices), key);
        if has_key(skeys(v.choices), key) {
            assert forall|j: int| 0 <= j < l.len() implies (#[trigger] l[j]).2 <= c by {
                assert(v.choices[p].1[j].2 <= v.clock);
            }
        }
        let i = find_from(l, word, 0);
        lemma_find_from_range(l, word, 0);
        let bumped = if i >= 0 {
            l.update(i, (word, (l[i].1 + 1) as u32, c))
        } else {
            l.push((word, 1u32, c))
        };
        assert forall|j: int| 0 <= j < bumped.len() implies (#[trigger] bumped[j]).2 <= c by {
            if !(i >= 0 && j == i) && j < l.len() {
                assert(bumped[j] == l[j]);
            }
        }
        lemma_sort_elems(bumped);
        let sorted = sort_by_last(bumped);
        let nl = chosen_list(l, word, c);
        assert forall|j: int| 0 <= j < nl.len() implies (#[trigger] nl[j]).2 <= c by {
            assert(nl[j] == sorted[j]);
            let k = choose|k: int| 0 <= k < bumped.len() && bumped[k] == sorted[j];
        }
        assert forall|a: int, b: int|
            0 <= a < v2.choices.len() && 0 <= b < v2.choices[a].1.len() implies (#[trigger] v2.choices[a].1[b]).2
                <= v2.clock by {
            if has_key(skeys(v.choices), key) {
                if a != p {
                    assert(v2.choices[a] == v.choices[a]);
                }
            } else {
                if a < p {
                    assert(v2.choices[a] == v.choices[a]);
                } else if a > p {
                    assert(v2.choices[a] == v.choices[a - 1]);
                }
            }
        }
    }
}

// ---------------------------------------------------------------------------------------------
// Export as journal records.

/// A choice's place: (last use, index of its key, position in the key's list).
pub type Pick = (u64, usize, usize);

/// Strictly before, by last use, then key (keys are stored in order), then list position.
pub open spec fn pick_lt(a: Pick, b: Pick) -> bool {
    a.0 < b.0 || (a.0 == b.0 && (a.1 < b.1 || (a.1 == b.1 && a.2 < b.2)))
}

/// Ascending, ties allowed.
pub open spec fn picks_ascending(s: Seq<Pick>) -> bool {
    forall|i: int, j: int| 0 <= i < j < s.len() ==> s[i] == s[j] || pick_lt(#[trigger] s[i], #[trigger] s[j])
}

/// `t` is the place of a choice of `v`.
pub open spec fn is_pick(v: UserView, t: Pick) -> bool {
    &&& t.1 < v.choices.len()
    &&& t.2 < v.choices[t.1 as int].1.len()
    &&& t.0 == v.choices[t.1 as int].1[t.2 as int].2
}

/// `order` lists every choice of `v` once, by last use, then key, then list position.
pub open spec fn pick_order(v: UserView, order: Seq<Pick>) -> bool {
    &&& forall|i: int, j: int| 0 <= i < j < order.len() ==> pick_lt(#[trigger] order[i], #[trigger] order[j])
    &&& forall|i: int| 0 <= i < order.len() ==> is_pick(v, #[trigger] order[i])
    &&& forall|t: Pick| is_pick(v, t) ==> order.contains(t)
}

/// `count` clamped to 1..=`max`.
pub open spec fn repeats(count: u32, max: u32) -> nat {
    if count < 1 {
        1
    } else if count > max {
        max as nat
    } else {
        count as nat
    }
}

/// A journal record can hold the pair.
pub open spec fn record_fits(key: Seq<char>, word: Seq<char>) -> bool {
    vstd::utf8::encode_utf8(key).len() <= 32 && vstd::utf8::encode_utf8(word).len() <= 84
}

/// `n` copies of the record (kind, key, word), if a record can hold the pair.
pub open spec fn copies(kind: u8, key: Seq<char>, word: Seq<char>, n: nat) -> Seq<(u8, Seq<char>, Seq<char>)> {
    if record_fits(key, word) {
        Seq::new(n, |i: int| (kind, key, word))
    } else {
        Seq::empty()
    }
}

/// The choice records, in `order`, each choice repeated by its count (1..=`max`).
pub open spec fn choice_records(v: UserView, order: Seq<Pick>, max: u32) -> Seq<(u8, Seq<char>, Seq<char>)>
    decreases order.len(),
{
    if order.len() == 0 {
        Seq::empty()
    } else {
        let t = order.last();
        let key = v.choices[t.1 as int].0;
        let c = v.choices[t.1 as int].1[t.2 as int];
        choice_records(v, order.drop_last(), max) + copies(KIND_CHOOSE, key, c.0, repeats(c.1, max))
    }
}

/// The negative-evidence records, in key order, each repeated by its count (1..=`max`).
pub open spec fn negative_records(ns: Seq<((Seq<char>, Seq<char>), u32)>, max: u32) -> Seq<
    (u8, Seq<char>, Seq<char>),
>
    decreases ns.len(),
{
    if ns.len() == 0 {
        Seq::empty()
    } else {
        let e = ns.last();
        negative_records(ns.drop_last(), max) + copies(KIND_NEGATIVE, e.0.0, e.0.1, repeats(e.1, max))
    }
}

/// `rs` are the journal records `JournalRecord::new` makes for `es`, at time `ts`.
pub open spec fn records_for(rs: Seq<JournalRecord>, es: Seq<(u8, Seq<char>, Seq<char>)>, ts: u32) -> bool {
    rs.len() == es.len() && forall|i: int| 0 <= i < rs.len() ==> made_from(#[trigger] rs[i], es[i].0, ts, es[i].1, es[i].2)
}

/// `slice::sort_unstable`: puts the places in ascending order (tuples compare field by field),
/// keeping the same elements.
#[verifier::external_body]
pub(crate) fn sort_picks(v: &mut Vec<Pick>)
    ensures
        final(v)@.to_multiset() == old(v)@.to_multiset(),
        picks_ascending(final(v)@),
{
    v.sort_unstable();
}

/// Appends `n` copies of the record for (kind, key, word), when a record can hold the pair.
fn push_copies(out: &mut Vec<JournalRecord>, kind: u8, ts: u32, key: &str, word: &str, n: u32)
    ensures
        final(out)@.len() >= old(out)@.len(),
        records_for(final(out)@.subrange(old(out)@.len() as int, final(out)@.len() as int), copies(kind, key@, word@, n as nat), ts),
        final(out)@.subrange(0, old(out)@.len() as int) == old(out)@,
{
    let ghost start = out@.len();
    match JournalRecord::new(kind, ts, key, word) {
        Some(r) => {
            let mut i: u32 = 0;
            while i < n
                invariant
                    i <= n,
                    out@.len() == start + i,
                    out@.subrange(0, start as int) == old(out)@,
                    start == old(out)@.len(),
                    made_from(r, kind, ts, key@, word@),
                    forall|j: int| start <= j < out@.len() ==> made_from(#[trigger] out@[j], kind, ts, key@, word@),
                decreases n - i,
            {
                let ghost before = out@;
                out.push(r);
                assert(out@.subrange(0, start as int) =~= before.subrange(0, start as int));
                assert forall|j: int| start <= j < out@.len() implies made_from(#[trigger] out@[j], kind, ts, key@, word@) by {
                    if j < before.len() {
                        assert(out@[j] == before[j]);
                    }
                }
                i += 1;
            }
        },
        None => {},
    }
    proof {
        let added = out@.subrange(start as int, out@.len() as int);
        assert(added.len() == copies(kind, key@, word@, n as nat).len());
        assert forall|j: int| 0 <= j < added.len() implies made_from(#[trigger] added[j], copies(kind, key@, word@, n as nat)[j].0, ts, copies(kind, key@, word@, n as nat)[j].1, copies(kind, key@, word@, n as nat)[j].2) by {
            assert(added[j] == out@[start + j]);
        }
    }
}

proof fn lemma_records_append(
    a: Seq<JournalRecord>,
    b: Seq<JournalRecord>,
    ea: Seq<(u8, Seq<char>, Seq<char>)>,
    eb: Seq<(u8, Seq<char>, Seq<char>)>,
    ts: u32,
)
    requires
        records_for(a, ea, ts),
        records_for(b, eb, ts),
    ensures
        records_for(a + b, ea + eb, ts),
{
    assert forall|i: int| 0 <= i < (a + b).len() implies made_from(#[trigger] (a + b)[i], (ea + eb)[i].0, ts, (ea + eb)[i].1, (ea + eb)[i].2) by {
        if i >= a.len() {
            assert((a + b)[i] == b[i - a.len()]);
            assert((ea + eb)[i] == eb[i - a.len()]);
        }
    }
}

fn clamp_count(c: u32, max: u32) -> (r: u32)
    requires
        max >= 1,
    ensures
        r == repeats(c, max),
{
    if c < 1 {
        1
    } else if c > max {
        max
    } else {
        c
    }
}

impl MemoryUser {
    /// The model as journal records, for an export after compaction: the choices in the order
    /// they were last used (ties by key), each repeated by its count up to `max_repeat`, then the
    /// negative evidence. Pairs a record cannot hold are left out.
    pub fn to_records(&self, ts: u32, max_repeat: u32) -> (r: Vec<JournalRecord>)
        requires
            self.wf(),
            max_repeat >= 1,
        ensures
            exists|order: Seq<Pick>|
                pick_order(self.view(), order) && records_for(
                    r@,
                    choice_records(self.view(), order, max_repeat) + negative_records(self.view().neg, max_repeat),
                    ts,
                ),
    {
        let ghost v = self.view();
        let mut picks: Vec<Pick> = Vec::new();
        let mut ki: usize = 0;
        while ki < self.choices.len()
            invariant
                ki <= self.choices@.len(),
                v == self.view(),
                forall|i: int| 0 <= i < picks@.len() ==> is_pick(v, #[trigger] picks@[i]) && picks@[i].1 < ki,
                forall|t: Pick| is_pick(v, t) && t.1 < ki ==> picks@.contains(t),
                forall|a: int, b: int| 0 <= a < b < picks@.len() ==> (#[trigger] picks@[a]).1 < (#[trigger] picks@[b]).1
                    || (picks@[a].1 == picks@[b].1 && picks@[a].2 < picks@[b].2),
            decreases self.choices.len() - ki,
        {
            let l = &self.choices[ki].1;
            let mut j: usize = 0;
            let ghost base = picks@.len();
            while j < l.len()
                invariant
                    ki < self.choices@.len(),
                    l == self.choices@[ki as int].1,
                    j <= l@.len(),
                    v == self.view(),
                    base <= picks@.len(),
                    picks@.len() == base + j,
                    forall|i: int| 0 <= i < picks@.len() ==> is_pick(v, #[trigger] picks@[i]) && picks@[i].1 <= ki,
                    forall|i: int| 0 <= i < base ==> (#[trigger] picks@[i]).1 < ki,
                    forall|i: int| base <= i < picks@.len() ==> (#[trigger] picks@[i]).1 == ki && picks@[i].2 == i - base,
                    forall|t: Pick| is_pick(v, t) && t.1 < ki ==> picks@.contains(t),
                    forall|t: Pick| is_pick(v, t) && t.1 == ki && t.2 < j ==> picks@.contains(t),
                    forall|a: int, b: int| 0 <= a < b < picks@.len() ==> (#[trigger] picks@[a]).1 < (#[trigger] picks@[b]).1
                        || (picks@[a].1 == picks@[b].1 && picks@[a].2 < picks@[b].2),
                decreases l.len() - j,
            {
                assert(v.choices[ki as int].1[j as int] == choice_view(l@[j as int]));
                let ghost before = picks@;
                picks.push((l[j].last, ki, j));
                proof {
                    assert forall|t: Pick| is_pick(v, t) && t.1 < ki implies picks@.contains(t) by {
                        let k = choose|k: int| 0 <= k < before.len() && before[k] == t;
                        assert(picks@[k] == t);
                    }
                    assert forall|t: Pick| is_pick(v, t) && t.1 == ki && t.2 < j + 1 implies picks@.contains(t) by {
                        if t.2 < j {
                            let k = choose|k: int| 0 <= k < before.len() && before[k] == t;
                            assert(picks@[k] == t);
                        } else {
                            assert(picks@[before.len() as int] == t);
                        }
                    }
                }
                j += 1;
            }
            proof {
                assert forall|t: Pick| is_pick(v, t) && t.1 < ki + 1 implies picks@.contains(t) by {
                    if t.1 == ki {
                        assert(t.2 < l@.len()) by {
                            assert(v.choices[ki as int].1.len() == l@.len());
                        }
                    }
                }
            }
            ki += 1;
        }
        let ghost unsorted = picks@;
        proof {
            assert(unsorted.no_duplicates()) by {
                assert forall|a: int, b: int| 0 <= a < unsorted.len() && 0 <= b < unsorted.len() && a != b implies unsorted[a] != unsorted[b] by {
                    if a < b {
                    } else {
                    }
                }
            }
            unsorted.lemma_multiset_has_no_duplicates();
        }
        sort_picks(&mut picks);
        let ghost order = picks@;
        proof {
            broadcast use vstd::seq_lib::group_to_multiset_ensures;
            order.lemma_multiset_has_no_duplicates_conv();
            assert forall|i: int| 0 <= i < order.len() implies is_pick(v, #[trigger] order[i]) by {
                assert(order.contains(order[i]));
                assert(order.to_multiset().count(order[i]) > 0);
                assert(unsorted.contains(order[i]));
            }
            assert forall|t: Pick| is_pick(v, t) implies order.contains(t) by {
                assert(unsorted.contains(t));
                assert(unsorted.to_multiset().count(t) > 0);
            }
            assert forall|i: int, j: int| 0 <= i < j < order.len() implies pick_lt(#[trigger] order[i], #[trigger] order[j]) by {
                assert(order[i] != order[j]);
            }
            assert(pick_order(v, order));
        }
        let mut out: Vec<JournalRecord> = Vec::new();
        let mut i: usize = 0;
        assert(order.take(0) =~= Seq::<Pick>::empty());
        while i < picks.len()
            invariant
                i <= picks@.len(),
                order == picks@,
                v == self.view(),
                max_repeat >= 1,
                pick_order(v, order),
                records_for(out@, choice_records(v, order.take(i as int), max_repeat), ts),
            decreases picks.len() - i,
        {
            let t = picks[i];
            let key = &self.choices[t.1].0;
            let c = &self.choices[t.1].1[t.2];
            let n = clamp_count(c.count, max_repeat);
            let ghost before = out@;
            push_copies(&mut out, KIND_CHOOSE, ts, key.as_str(), c.word.as_str(), n);
            proof {
                assert(v.choices[t.1 as int].1[t.2 as int] == choice_view(*c));
                assert(order.take(i + 1).drop_last() =~= order.take(i as int));
                assert(out@ =~= before + out@.subrange(before.len() as int, out@.len() as int));
                lemma_records_append(before, out@.subrange(before.len() as int, out@.len() as int), choice_records(v, order.take(i as int), max_repeat), copies(KIND_CHOOSE, key@, c.word@, n as nat), ts);
            }
            i += 1;
        }
        assert(order.take(order.len() as int) =~= order);
        let ghost first = out@;
        let mut i: usize = 0;
        assert(v.neg.take(0) =~= Seq::<((Seq<char>, Seq<char>), u32)>::empty());
        while i < self.neg.len()
            invariant
                i <= self.neg@.len(),
                v == self.view(),
                max_repeat >= 1,
                out@.subrange(0, first.len() as int) == first,
                first.len() <= out@.len(),
                records_for(out@.subrange(first.len() as int, out@.len() as int), negative_records(v.neg.take(i as int), max_repeat), ts),
            decreases self.neg.len() - i,
        {
            let n = clamp_count(self.neg[i].1, max_repeat);
            let ghost before = out@;
            push_copies(&mut out, KIND_NEGATIVE, ts, self.neg[i].0.0.as_str(), self.neg[i].0.1.as_str(), n);
            proof {
                assert(v.neg[i as int] == ((self.neg@[i as int].0.0@, self.neg@[i as int].0.1@), self.neg@[i as int].1));
                assert(v.neg.take(i + 1).drop_last() =~= v.neg.take(i as int));
                let mid = before.subrange(first.len() as int, before.len() as int);
                let added = out@.subrange(before.len() as int, out@.len() as int);
                assert(out@.subrange(first.len() as int, out@.len() as int) =~= mid + added);
                assert(out@.subrange(0, first.len() as int) =~= before.subrange(0, first.len() as int));
                lemma_records_append(mid, added, negative_records(v.neg.take(i as int), max_repeat), copies(KIND_NEGATIVE, v.neg[i as int].0.0, v.neg[i as int].0.1, n as nat), ts);
            }
            i += 1;
        }
        proof {
            assert(v.neg.take(v.neg.len() as int) =~= v.neg);
            assert(out@ =~= first + out@.subrange(first.len() as int, out@.len() as int));
            lemma_records_append(first, out@.subrange(first.len() as int, out@.len() as int), choice_records(v, order, max_repeat), negative_records(v.neg, max_repeat), ts);
        }
        out
    }
}

proof fn lemma_sorted_picks_unique(o1: Seq<Pick>, o2: Seq<Pick>, v: UserView)
    requires
        forall|i: int, j: int| 0 <= i < j < o1.len() ==> pick_lt(#[trigger] o1[i], #[trigger] o1[j]),
        forall|i: int, j: int| 0 <= i < j < o2.len() ==> pick_lt(#[trigger] o2[i], #[trigger] o2[j]),
        forall|t: Pick| #[trigger] o1.contains(t) <==> o2.contains(t),
    ensures
        o1 == o2,
    decreases o1.len(),
{
    if o1.len() == 0 {
        if o2.len() > 0 {
            assert(o2.contains(o2[0]));
            assert(o1.contains(o2[0]));
        }
        assert(o1 =~= o2);
    } else {
        assert(o1.contains(o1[0]));
        assert(o2.len() > 0);
        let m1 = o1[0];
        let m2 = o2[0];
        assert(o2.contains(m1));
        assert(o2.contains(m2));
        assert(o1.contains(m2));
        let k2 = choose|k: int| 0 <= k < o2.len() && o2[k] == m1;
        let k1 = choose|k: int| 0 <= k < o1.len() && o1[k] == m2;
        if m1 != m2 {
            assert(k2 > 0);
            assert(k1 > 0);
            assert(pick_lt(o2[0], o2[k2]));
            assert(pick_lt(o1[0], o1[k1]));
            assert(false);
        }
        assert(m1 == m2);
        let t1 = o1.drop_first();
        let t2 = o2.drop_first();
        assert forall|t: Pick| #[trigger] t1.contains(t) <==> t2.contains(t) by {
            if t1.contains(t) {
                let a = choose|a: int| 0 <= a < t1.len() && t1[a] == t;
                assert(o1[a + 1] == t);
                assert(pick_lt(o1[0], o1[a + 1]));
                assert(o1.contains(t));
                assert(o2.contains(t));
                let b = choose|b: int| 0 <= b < o2.len() && o2[b] == t;
                if b == 0 {
                    assert(t == m2);
                }
                assert(t2[b - 1] == t);
            }
            if t2.contains(t) {
                let a = choose|a: int| 0 <= a < t2.len() && t2[a] == t;
                assert(o2[a + 1] == t);
                assert(pick_lt(o2[0], o2[a + 1]));
                assert(o2.contains(t));
                assert(o1.contains(t));
                let b = choose|b: int| 0 <= b < o1.len() && o1[b] == t;
                if b == 0 {
                    assert(t == m1);
                }
                assert(t1[b - 1] == t);
            }
        }
        assert forall|i: int, j: int| 0 <= i < j < t1.len() implies pick_lt(#[trigger] t1[i], #[trigger] t1[j]) by {
            assert(t1[i] == o1[i + 1]);
            assert(t1[j] == o1[j + 1]);
        }
        assert forall|i: int, j: int| 0 <= i < j < t2.len() implies pick_lt(#[trigger] t2[i], #[trigger] t2[j]) by {
            assert(t2[i] == o2[i + 1]);
            assert(t2[j] == o2[j + 1]);
        }
        lemma_sorted_picks_unique(t1, t2, v);
        assert(o1 =~= seq![m1] + t1);
        assert(o2 =~= seq![m2] + t2);
    }
}

/// Every choice list holds its most recent choice first, strictly newer than the others.
pub open spec fn newest_first(v: UserView) -> bool {
    forall|i: int, j: int|
        0 <= i < v.choices.len() && 0 < j < v.choices[i].1.len() ==> (#[trigger] v.choices[i].1[j]).2
            < v.choices[i].1[0].2
}

/// The export lists choices in the order they were last used, so each key's most recent choice
/// comes after every other choice of that key: replayed in order, it is the one chosen last.
pub proof fn law_export_latest_last(v: UserView, order: Seq<Pick>, a: int, b: int)
    requires
        pick_order(v, order),
        newest_first(v),
        0 <= a < order.len(),
        0 <= b < order.len(),
        order[a].1 == order[b].1,
        order[b].2 == 0,
    ensures
        a <= b,
{
    if a > b {
        assert(pick_lt(order[b], order[a]));
        assert(is_pick(v, order[a]));
        assert(is_pick(v, order[b]));
        let ki = order[a].1 as int;
        if order[a].2 > 0 {
            assert(v.choices[ki].1[order[a].2 as int].2 < v.choices[ki].1[0].2);
        }
    }
}

/// There is one order of the choices by last use, key and list position, so the records
/// `to_records` returns are determined by the model.
pub proof fn law_pick_order_unique(v: UserView, o1: Seq<Pick>, o2: Seq<Pick>)
    requires
        pick_order(v, o1),
        pick_order(v, o2),
    ensures
        o1 == o2,
{
    assert forall|t: Pick| #[trigger] o1.contains(t) <==> o2.contains(t) by {
        if o1.contains(t) {
            let a = choose|a: int| 0 <= a < o1.len() && o1[a] == t;
            assert(is_pick(v, o1[a]));
        }
        if o2.contains(t) {
            let a = choose|a: int| 0 <= a < o2.len() && o2[a] == t;
            assert(is_pick(v, o2[a]));
        }
    }
    lemma_sorted_picks_unique(o1, o2, v);
}

// ---------------------------------------------------------------------------------------------
// Replaying exported records.

/// A model after replaying records in order: a choice as `record(key, word, 0, false, None)`,
/// anything else as `record_negative(key, word)`.
pub open spec fn replay(u: UserView, es: Seq<(u8, Seq<char>, Seq<char>)>) -> UserView
    decreases es.len(),
{
    if es.len() == 0 {
        u
    } else {
        let u0 = replay(u, es.drop_last());
        let e = es.last();
        if e.0 == KIND_CHOOSE {
            spec_record(u0, e.1, e.2, 0, false, None)
        } else {
            spec_record_negative(u0, e.1, e.2)
        }
    }
}

/// The word of the last of `es` whose key is `k`.
pub open spec fn last_word(es: Seq<(u8, Seq<char>, Seq<char>)>, k: Seq<char>) -> Option<Seq<char>>
    decreases es.len(),
{
    if es.len() == 0 {
        None
    } else if es.last().1 == k {
        Some(es.last().2)
    } else {
        last_word(es.drop_last(), k)
    }
}

proof fn lemma_replay_concat(u: UserView, a: Seq<(u8, Seq<char>, Seq<char>)>, b: Seq<(u8, Seq<char>, Seq<char>)>)
    ensures
        replay(u, a + b) == replay(replay(u, a), b),
    decreases b.len(),
{
    if b.len() == 0 {
        assert(a + b =~= a);
    } else {
        lemma_replay_concat(u, a, b.drop_last());
        assert((a + b).drop_last() =~= a + b.drop_last());
        assert((a + b).last() == b.last());
    }
}

proof fn lemma_record_wf(v: UserView, key: Seq<char>, word: Seq<char>)
    requires
        user_wf(v),
    ensures
        user_wf(spec_record(v, key, word, 0, false, None)),
{
    if learnable_key(key) {
        let c = (v.clock + 1) as u64;
        let nl = chosen_list(choices_for(v, key), word, c);
        lemma_put_sorted(v.choices, key, nl);
        lemma_put_lens(v.choices, key, nl);
        lemma_put_sorted(v.words, word, (word_count(v, word) + 1) as u32);
        lemma_pdelete_sorted(v.neg, (key, word));
    }
}

/// Replaying choices of learnable keys, with no negative evidence: each key's first choice is
/// the word chosen for it last.
proof fn lemma_replay_choices(u: UserView, es: Seq<(u8, Seq<char>, Seq<char>)>)
    requires
        user_wf(u),
        clock_ahead(u),
        u.neg.len() == 0,
        u.clock + es.len() < u64::MAX,
        forall|i: int| 0 <= i < es.len() ==> (#[trigger] es[i]).0 == KIND_CHOOSE && learnable_key(es[i].1),
    ensures
        user_wf(replay(u, es)),
        clock_ahead(replay(u, es)),
        replay(u, es).neg.len() == 0,
        replay(u, es).clock == u.clock + es.len(),
        forall|k: Seq<char>|
            match #[trigger] last_word(es, k) {
                Some(w) => choices_for(replay(u, es), k).len() > 0 && choices_for(replay(u, es), k)[0].0 == w,
                None => choices_for(replay(u, es), k) == choices_for(u, k),
            },
    decreases es.len(),
{
    if es.len() > 0 {
        let e0 = es.drop_last();
        assert forall|i: int| 0 <= i < e0.len() implies (#[trigger] e0[i]).0 == KIND_CHOOSE && learnable_key(e0[i].1) by {
            assert(e0[i] == es[i]);
        }
        lemma_replay_choices(u, e0);
        let r0 = replay(u, e0);
        let e = es.last();
        assert(es[es.len() - 1] == e);
        let key = e.1;
        let word = e.2;
        let r = replay(u, es);
        assert(r == spec_record(r0, key, word, 0, false, None));
        lemma_record_wf(r0, key, word);
        law_record_keeps_clock_ahead(r0, key, word, 0, false, None);
        let c = (r0.clock + 1) as u64;
        let l = choices_for(r0, key);
        lemma_key_pos(skeys(r0.choices), key);
        if has_key(skeys(r0.choices), key) {
            let p = key_pos(skeys(r0.choices), key);
            assert forall|j: int| 0 <= j < l.len() implies (#[trigger] l[j]).2 < c by {
                assert(r0.choices[p].1[j].2 <= r0.clock);
            }
        }
        lemma_chosen_front(l, word, c);
        let nl = chosen_list(l, word, c);
        lemma_lookup_put(r0.choices, key, nl);
        assert(choices_for(r, key) == nl);
        assert(r.neg =~= r0.neg);
        assert forall|k: Seq<char>|
            match #[trigger] last_word(es, k) {
                Some(w) => choices_for(r, k).len() > 0 && choices_for(r, k)[0].0 == w,
                None => choices_for(r, k) == choices_for(u, k),
            } by {
            if k != key {
                lemma_lookup_put_other(r0.choices, key, nl, k);
                assert(last_word(es, k) == last_word(e0, k));
            }
        }
    }
}

/// Replaying negative evidence for learnable keys and non-empty words, from none: the choices
/// stay, and there is evidence against exactly the pairs replayed.
proof fn lemma_replay_negatives(u: UserView, ns: Seq<(u8, Seq<char>, Seq<char>)>)
    requires
        user_wf(u),
        u.neg.len() == 0,
        ns.len() < u32::MAX,
        forall|i: int|
            0 <= i < ns.len() ==> (#[trigger] ns[i]).0 != KIND_CHOOSE && learnable_key(ns[i].1) && ns[i].2.len()
                > 0,
    ensures
        user_wf(replay(u, ns)),
        replay(u, ns).choices == u.choices,
        forall|k: Seq<char>, w: Seq<char>| #[trigger] neg_count(replay(u, ns).neg, k, w) <= ns.len(),
        forall|k: Seq<char>, w: Seq<char>|
            #[trigger] neg_count(replay(u, ns).neg, k, w) > 0 <==> exists|i: int|
                0 <= i < ns.len() && (#[trigger] ns[i]).1 == k && ns[i].2 == w,
    decreases ns.len(),
{
    if ns.len() == 0 {
        assert forall|k: Seq<char>, w: Seq<char>| #[trigger] neg_count(replay(u, ns).neg, k, w) == 0 by {
            lemma_ppos_from(pkeys(u.neg), (k, w), 0);
        }
    } else {
        let n0 = ns.drop_last();
        assert forall|i: int|
            0 <= i < n0.len() implies (#[trigger] n0[i]).0 != KIND_CHOOSE && learnable_key(n0[i].1) && n0[i].2.len()
                > 0 by {
            assert(n0[i] == ns[i]);
        }
        lemma_replay_negatives(u, n0);
        let r0 = replay(u, n0);
        let e = ns.last();
        assert(ns[ns.len() - 1] == e);
        let key = e.1;
        let word = e.2;
        let r = replay(u, ns);
        assert(r == spec_record_negative(r0, key, word));
        let c = (neg_count(r0.neg, key, word) + 1) as u32;
        assert(neg_count(r0.neg, key, word) <= n0.len());
        lemma_pput_sorted(r0.neg, (key, word), c);
        lemma_plookup_pput(r0.neg, (key, word), c);
        assert forall|k: Seq<char>, w: Seq<char>| #[trigger] neg_count(r.neg, k, w) <= ns.len() && (neg_count(r.neg, k, w) > 0 <==> exists|i: int|
            0 <= i < ns.len() && (#[trigger] ns[i]).1 == k && ns[i].2 == w) by {
            if (k, w) != (key, word) {
                lemma_plookup_pput_other(r0.neg, (key, word), c, (k, w));
                assert(neg_count(r.neg, k, w) == neg_count(r0.neg, k, w));
                if exists|i: int| 0 <= i < ns.len() && (#[trigger] ns[i]).1 == k && ns[i].2 == w {
                    let i = choose|i: int| 0 <= i < ns.len() && (#[trigger] ns[i]).1 == k && ns[i].2 == w;
                    assert(i != ns.len() - 1);
                    assert(n0[i] == ns[i]);
                }
                if exists|i: int| 0 <= i < n0.len() && (#[trigger] n0[i]).1 == k && n0[i].2 == w {
                    let i = choose|i: int| 0 <= i < n0.len() && (#[trigger] n0[i]).1 == k && n0[i].2 == w;
                    assert(ns[i] == n0[i]);
                }
            } else {
                assert(ns[ns.len() - 1].1 == k && ns[ns.len() - 1].2 == w);
            }
        }
    }
}

proof fn lemma_copies_facts(kind: u8, key: Seq<char>, word: Seq<char>, n: nat, k: Seq<char>)
    ensures
        forall|i: int| 0 <= i < copies(kind, key, word, n).len() ==> #[trigger] copies(kind, key, word, n)[i] == (kind, key, word),
        copies(kind, key, word, n).len() == if record_fits(key, word) { n } else { 0 },
        last_word(copies(kind, key, word, n), k) == if record_fits(key, word) && n > 0 && key == k {
            Some(word)
        } else {
            None::<Seq<char>>
        },
    decreases n,
{
    if n > 0 && record_fits(key, word) {
        lemma_copies_facts(kind, key, word, (n - 1) as nat, k);
        assert(copies(kind, key, word, n).drop_last() =~= copies(kind, key, word, (n - 1) as nat));
    }
}

proof fn lemma_last_word_concat(a: Seq<(u8, Seq<char>, Seq<char>)>, b: Seq<(u8, Seq<char>, Seq<char>)>, k: Seq<char>)
    ensures
        last_word(a + b, k) == match last_word(b, k) {
            Some(w) => Some(w),
            None => last_word(a, k),
        },
    decreases b.len(),
{
    if b.len() == 0 {
        assert(a + b =~= a);
    } else {
        lemma_last_word_concat(a, b.drop_last(), k);
        assert((a + b).drop_last() =~= a + b.drop_last());
        assert((a + b).last() == b.last());
    }
}

/// Some record of `es` is for (`k`, `w`).
pub open spec fn has_entry(es: Seq<(u8, Seq<char>, Seq<char>)>, k: Seq<char>, w: Seq<char>) -> bool {
    exists|i: int| 0 <= i < es.len() && (#[trigger] es[i]).1 == k && es[i].2 == w
}

/// Some entry of `ns` is for (`k`, `w`).
pub open spec fn has_neg_entry(ns: Seq<((Seq<char>, Seq<char>), u32)>, k: Seq<char>, w: Seq<char>) -> bool {
    exists|j: int| 0 <= j < ns.len() && (#[trigger] ns[j]).0 == (k, w)
}

/// The negative records are negative, and hold exactly the pairs of `ns`.
#[verifier::rlimit(40)]
proof fn lemma_negative_records(ns: Seq<((Seq<char>, Seq<char>), u32)>, max: u32)
    requires
        max >= 1,
        forall|j: int| 0 <= j < ns.len() ==> record_fits((#[trigger] ns[j]).0.0, ns[j].0.1),
    ensures
        forall|i: int|
            0 <= i < negative_records(ns, max).len() ==> (#[trigger] negative_records(ns, max)[i]).0 == KIND_NEGATIVE
                && has_neg_entry(ns, negative_records(ns, max)[i].1, negative_records(ns, max)[i].2),
        forall|j: int| 0 <= j < ns.len() ==> has_entry(negative_records(ns, max), (#[trigger] ns[j]).0.0, ns[j].0.1),
    decreases ns.len(),
{
    if ns.len() > 0 {
        let n0 = ns.drop_last();
        assert forall|j: int| 0 <= j < n0.len() implies record_fits((#[trigger] n0[j]).0.0, n0[j].0.1) by {
            assert(n0[j] == ns[j]);
        }
        lemma_negative_records(n0, max);
        let e = ns.last();
        let a = negative_records(n0, max);
        let cp = copies(KIND_NEGATIVE, e.0.0, e.0.1, repeats(e.1, max));
        let r = negative_records(ns, max);
        lemma_copies_facts(KIND_NEGATIVE, e.0.0, e.0.1, repeats(e.1, max), e.0.0);
        assert(r == a + cp);
        assert(record_fits(ns[ns.len() - 1].0.0, ns[ns.len() - 1].0.1));
        assert forall|i: int| 0 <= i < r.len() implies (#[trigger] r[i]).0 == KIND_NEGATIVE && has_neg_entry(
            ns,
            r[i].1,
            r[i].2,
        ) by {
            if i < a.len() {
                assert(r[i] == a[i]);
                assert(has_neg_entry(n0, a[i].1, a[i].2));
                let j = choose|j: int| 0 <= j < n0.len() && (#[trigger] n0[j]).0 == (a[i].1, a[i].2);
                assert(ns[j] == n0[j]);
            } else {
                assert(r[i] == cp[i - a.len()]);
                assert(ns[ns.len() - 1] == e);
            }
        }
        assert forall|j: int| 0 <= j < ns.len() implies has_entry(r, (#[trigger] ns[j]).0.0, ns[j].0.1) by {
            if j < ns.len() - 1 {
                assert(n0[j] == ns[j]);
                assert(has_entry(a, n0[j].0.0, n0[j].0.1));
                let i = choose|i: int| 0 <= i < a.len() && (#[trigger] a[i]).1 == n0[j].0.0 && a[i].2 == n0[j].0.1;
                assert(r[i] == a[i]);
            } else {
                assert(repeats(e.1, max) >= 1);
                assert(r[a.len() as int] == cp[0]);
            }
        }
    }
}

/// The key of a place in the model.
pub open spec fn pick_key(v: UserView, t: Pick) -> Seq<char> {
    v.choices[t.1 as int].0
}

/// The word of a place in the model.
pub open spec fn pick_word(v: UserView, t: Pick) -> Seq<char> {
    v.choices[t.1 as int].1[t.2 as int].0
}

/// The index of the last place in `o` whose key is `k`, or -1.
pub open spec fn last_pick(v: UserView, o: Seq<Pick>, k: Seq<char>) -> int
    decreases o.len(),
{
    if o.len() == 0 {
        -1
    } else if pick_key(v, o.last()) == k {
        o.len() - 1
    } else {
        last_pick(v, o.drop_last(), k)
    }
}

/// `k` is the key of one of the model's entries.
pub open spec fn is_model_key(v: UserView, k: Seq<char>) -> bool {
    exists|ki: int| 0 <= ki < v.choices.len() && (#[trigger] v.choices[ki]).0 == k
}

proof fn lemma_last_pick(v: UserView, o: Seq<Pick>, k: Seq<char>)
    ensures
        -1 <= last_pick(v, o, k) < o.len(),
        last_pick(v, o, k) >= 0 ==> pick_key(v, o[last_pick(v, o, k)]) == k,
        forall|q: int| last_pick(v, o, k) < q < o.len() ==> pick_key(v, #[trigger] o[q]) != k,
    decreases o.len(),
{
    if o.len() > 0 && pick_key(v, o.last()) != k {
        lemma_last_pick(v, o.drop_last(), k);
        assert forall|q: int| last_pick(v, o, k) < q < o.len() implies pick_key(v, #[trigger] o[q]) != k by {
            if q < o.len() - 1 {
                assert(o[q] == o.drop_last()[q]);
            }
        }
    }
}

/// The choice records are choices for the model's keys, and the last one for `k` is the last
/// place of `k` in the order.
proof fn lemma_choice_records(v: UserView, order: Seq<Pick>, max: u32, k: Seq<char>)
    requires
        max >= 1,
        forall|q: int| 0 <= q < order.len() ==> is_pick(v, #[trigger] order[q]),
        forall|i: int, j: int|
            0 <= i < v.choices.len() && 0 <= j < v.choices[i].1.len() ==> record_fits(
                v.choices[i].0,
                (#[trigger] v.choices[i].1[j]).0,
            ),
    ensures
        forall|i: int|
            0 <= i < choice_records(v, order, max).len() ==> (#[trigger] choice_records(v, order, max)[i]).0
                == KIND_CHOOSE && is_model_key(v, choice_records(v, order, max)[i].1),
        last_word(choice_records(v, order, max), k) == if last_pick(v, order, k) >= 0 {
            Some(pick_word(v, order[last_pick(v, order, k)]))
        } else {
            None::<Seq<char>>
        },
    decreases order.len(),
{
    if order.len() > 0 {
        let o0 = order.drop_last();
        assert forall|q: int| 0 <= q < o0.len() implies is_pick(v, #[trigger] o0[q]) by {
            assert(o0[q] == order[q]);
        }
        lemma_choice_records(v, o0, max, k);
        let t = order.last();
        assert(is_pick(v, order[order.len() - 1]));
        let key = v.choices[t.1 as int].0;
        let c = v.choices[t.1 as int].1[t.2 as int];
        assert(record_fits(key, c.0));
        let a = choice_records(v, o0, max);
        let cp = copies(KIND_CHOOSE, key, c.0, repeats(c.1, max));
        lemma_copies_facts(KIND_CHOOSE, key, c.0, repeats(c.1, max), k);
        let r = choice_records(v, order, max);
        assert(r == a + cp);
        lemma_last_word_concat(a, cp, k);
        assert forall|i: int| 0 <= i < r.len() implies (#[trigger] r[i]).0 == KIND_CHOOSE && is_model_key(v, r[i].1) by {
            if i < a.len() {
                assert(r[i] == a[i]);
            } else {
                assert(r[i] == cp[i - a.len()]);
                assert(v.choices[t.1 as int].0 == key);
            }
        }
        if pick_key(v, t) != k {
            assert(last_pick(v, order, k) == last_pick(v, o0, k));
            lemma_last_pick(v, o0, k);
            if last_pick(v, o0, k) >= 0 {
                assert(order[last_pick(v, o0, k)] == o0[last_pick(v, o0, k)]);
            }
        }
    }
}

/// In an export order, the last place of a key is its most recent choice.
proof fn lemma_last_pick_front(v: UserView, order: Seq<Pick>, k: Seq<char>)
    requires
        user_wf(v),
        newest_first(v),
        pick_order(v, order),
        v.choices.len() <= usize::MAX,
    ensures
        if choices_for(v, k).len() > 0 {
            last_pick(v, order, k) >= 0 && pick_word(v, order[last_pick(v, order, k)]) == choices_for(v, k)[0].0
        } else {
            last_pick(v, order, k) < 0
        },
{
    lemma_last_pick(v, order, k);
    let r = last_pick(v, order, k);
    let ks = skeys(v.choices);
    lemma_sorted_find(ks, k);
    if r >= 0 {
        let t = order[r];
        assert(is_pick(v, t));
        assert(ks[t.1 as int] == k);
        assert(has_key(ks, k));
        assert(t.1 == key_pos(ks, k));
    }
    if choices_for(v, k).len() > 0 {
        let ki = key_pos(ks, k);
        assert(has_key(ks, k));
        let l = v.choices[ki].1;
        assert(choices_for(v, k) == l);
        let f: Pick = (l[0].2, ki as usize, 0usize);
        assert(is_pick(v, f));
        assert(order.contains(f));
        let b = choose|b: int| 0 <= b < order.len() && order[b] == f;
        assert(ks[ki] == k);
        assert(pick_key(v, order[b]) == k);
        assert(b <= r);
        law_export_latest_last(v, order, r, b);
    }
}

/// Exporting and replaying keeps every pin: replaying, into an empty model, the records that
/// `to_records` lists (the choices in the order they were last used, then the negative
/// evidence) pins the same choice for every key as the model exported, when each choice list
/// keeps its newest choice first, every key is learnable, every record can hold its pair, every
/// negative count is at least one, and the counts of records fit the clock and the counters.
pub proof fn law_records_replay_sticky(v: UserView, order: Seq<Pick>, max: u32, k: Seq<char>)
    requires
        user_wf(v),
        newest_first(v),
        pick_order(v, order),
        v.choices.len() <= usize::MAX,
        1 <= max,
        forall|i: int| 0 <= i < v.choices.len() ==> learnable_key(#[trigger] v.choices[i].0),
        forall|i: int, j: int|
            0 <= i < v.choices.len() && 0 <= j < v.choices[i].1.len() ==> record_fits(
                v.choices[i].0,
                (#[trigger] v.choices[i].1[j]).0,
            ),
        forall|j: int|
            0 <= j < v.neg.len() ==> (#[trigger] v.neg[j]).1 >= 1 && learnable_key(v.neg[j].0.0) && v.neg[j].0.1.len() > 0
                && record_fits(v.neg[j].0.0, v.neg[j].0.1),
        choice_records(v, order, max).len() < u64::MAX,
        negative_records(v.neg, max).len() < u32::MAX,
    ensures
        spec_sticky(replay(empty_user(), choice_records(v, order, max) + negative_records(v.neg, max)), k)
            == spec_sticky(v, k),
{
    let cr = choice_records(v, order, max);
    let nr = negative_records(v.neg, max);
    let u0 = empty_user();
    assert(pick_order(v, order));
    assert forall|q: int| 0 <= q < order.len() implies is_pick(v, #[trigger] order[q]) by {}
    lemma_choice_records(v, order, max, k);
    assert forall|i: int| 0 <= i < cr.len() implies (#[trigger] cr[i]).0 == KIND_CHOOSE && learnable_key(cr[i].1) by {
        assert(is_model_key(v, cr[i].1));
        let ki = choose|ki: int| 0 <= ki < v.choices.len() && (#[trigger] v.choices[ki]).0 == cr[i].1;
    }
    assert(user_wf(u0)) by {
        assert(skeys(u0.choices) =~= Seq::<Seq<char>>::empty());
        assert(pkeys(u0.neg) =~= Seq::<(Seq<char>, Seq<char>)>::empty());
        assert(skeys(u0.words) =~= Seq::<Seq<char>>::empty());
    }
    lemma_replay_choices(u0, cr);
    let u1 = replay(u0, cr);
    assert(forall|j: int| 0 <= j < v.neg.len() ==> record_fits((#[trigger] v.neg[j]).0.0, v.neg[j].0.1));
    lemma_negative_records(v.neg, max);
    assert forall|i: int|
        0 <= i < nr.len() implies (#[trigger] nr[i]).0 != KIND_CHOOSE && learnable_key(nr[i].1) && nr[i].2.len() > 0 by {
        assert(has_neg_entry(v.neg, nr[i].1, nr[i].2));
        let j = choose|j: int| 0 <= j < v.neg.len() && (#[trigger] v.neg[j]).0 == (nr[i].1, nr[i].2);
    }
    lemma_replay_negatives(u1, nr);
    lemma_replay_concat(u0, cr, nr);
    let u2 = replay(u0, cr + nr);
    assert(u2.choices == u1.choices);
    assert(choices_for(u2, k) == choices_for(u1, k));
    assert(choices_for(u0, k) =~= Seq::<ChoiceV>::empty()) by {
        lemma_key_pos(skeys(u0.choices), k);
    }
    lemma_last_pick_front(v, order, k);
    let l = choices_for(v, k);
    let m = last_word(cr, k);
    if l.len() > 0 {
        let w = l[0].0;
        assert(m == Some(w));
        assert(choices_for(u2, k)[0].0 == w);
        // evidence against (k, w) after the replay exactly when the model has some
        lemma_ppos_from(pkeys(v.neg), (k, w), 0);
        lemma_psorted_find(v.neg, (k, w));
        if neg_count(v.neg, k, w) > 0 {
            assert(has_pair(v.neg, (k, w)));
            let j = choose|j: int| 0 <= j < v.neg.len() && (#[trigger] v.neg[j]).0 == (k, w);
            assert(has_entry(nr, v.neg[j].0.0, v.neg[j].0.1));
            assert(neg_count(u2.neg, k, w) > 0);
        } else {
            if neg_count(u2.neg, k, w) > 0 {
                let i = choose|i: int| 0 <= i < nr.len() && (#[trigger] nr[i]).1 == k && nr[i].2 == w;
                assert(has_neg_entry(v.neg, nr[i].1, nr[i].2));
                let j = choose|j: int| 0 <= j < v.neg.len() && (#[trigger] v.neg[j]).0 == (k, w);
                assert(has_pair(v.neg, (k, w)));
                assert(j == ppos(v.neg, (k, w)));
                assert(v.neg[j].1 >= 1);
            }
        }
    } else {
        assert(m is None);
        assert(choices_for(u2, k).len() == 0);
    }
}

proof fn lemma_sort_rest(s: Seq<ChoiceV>, i: int)
    requires
        0 <= i < s.len(),
        forall|j: int| 0 <= j < s.len() && j != i ==> (#[trigger] s[j]).2 < s[i].2,
    ensures
        forall|j: int| 1 <= j < sort_by_last(s).len() ==> (#[trigger] sort_by_last(s)[j]).2 < s[i].2,
    decreases s.len(),
{
    lemma_sort_elems(s);
    let t = s.drop_last();
    let r = sort_by_last(t);
    let e = s[i];
    let x = s.last();
    lemma_sort_elems(t);
    lemma_last_pos_range(r, x.2, 0);
    let p = last_pos(r, x.2, 0);
    let res = sort_by_last(s);
    assert(res == r.insert(p, x));
    if i == s.len() - 1 {
        assert forall|k: int| 0 <= k < r.len() implies (#[trigger] r[k]).2 < e.2 by {
            let j = choose|j: int| 0 <= j < t.len() && t[j] == r[k];
            assert(s[j] == t[j]);
        }
        assert(p == 0);
        assert forall|j: int| 1 <= j < res.len() implies (#[trigger] res[j]).2 < e.2 by {
            assert(res[j] == r[j - 1]);
        }
    } else {
        assert forall|j: int| 0 <= j < t.len() && j != i implies (#[trigger] t[j]).2 < t[i].2 by {
            assert(t[j] == s[j]);
        }
        lemma_sort_rest(t, i);
        lemma_sort_front(t, i);
        assert(x.2 < e.2);
        assert(r[0].2 == e.2);
        assert(p >= 1);
        assert forall|j: int| 1 <= j < res.len() implies (#[trigger] res[j]).2 < e.2 by {
            if j < p {
                assert(res[j] == r[j]);
            } else if j > p {
                assert(res[j] == r[j - 1]);
            }
        }
    }
}

/// Recording keeps every choice list newest first (when no remembered choice is dated after the
/// clock), so a model built by recording, from an empty one, always has its lists that way.
pub proof fn law_record_keeps_newest_first(
    v: UserView,
    key: Seq<char>,
    word: Seq<char>,
    rank: usize,
    navigated: bool,
    top: Option<Seq<char>>,
)
    requires
        user_wf(v),
        clock_ahead(v),
        newest_first(v),
        v.clock < u64::MAX,
    ensures
        newest_first(spec_record(v, key, word, rank, navigated, top)),
        newest_first(spec_record_negative(v, key, word)),
        newest_first(empty_user()),
{
    if learnable_key(key) {
        let c = (v.clock + 1) as u64;
        let l = choices_for(v, key);
        lemma_key_pos(skeys(v.choices), key);
        let p = key_pos(skeys(v.choices), key);
        if has_key(skeys(v.choices), key) {
            assert forall|j: int| 0 <= j < l.len() implies (#[trigger] l[j]).2 < c by {
                assert(v.choices[p].1[j].2 <= v.clock);
            }
        }
        lemma_chosen_front(l, word, c);
        let i = find_from(l, word, 0);
        lemma_find_from_range(l, word, 0);
        let bumped = if i >= 0 {
            l.update(i, (word, (l[i].1 + 1) as u32, c))
        } else {
            l.push((word, 1u32, c))
        };
        let at = if i >= 0 { i } else { l.len() as int };
        assert forall|j: int| 0 <= j < bumped.len() && j != at implies (#[trigger] bumped[j]).2 < bumped[at].2 by {
            assert(bumped[j] == l[j]);
        }
        lemma_sort_rest(bumped, at);
        lemma_sort_elems(bumped);
        let sorted = sort_by_last(bumped);
        let nl = chosen_list(l, word, c);
        assert forall|j: int| 0 < j < nl.len() implies (#[trigger] nl[j]).2 < nl[0].2 by {
            assert(nl[j] == sorted[j]);
        }
        let cs = v.choices;
        let r = put(cs, key, nl);
        assert forall|a: int, j: int| 0 <= a < r.len() && 0 < j < r[a].1.len() implies (#[trigger] r[a].1[j]).2
            < r[a].1[0].2 by {
            if has_key(skeys(cs), key) {
                if a != p {
                    assert(r[a] == cs[a]);
                }
            } else if a < p {
                assert(r[a] == cs[a]);
            } else if a > p {
                assert(r[a] == cs[a - 1]);
            }
        }
    }
}

proof fn lemma_list_max(l: Seq<ChoiceV>, b: u64)
    ensures
        forall|j: int| 0 <= j < l.len() ==> (#[trigger] l[j]).2 <= list_max(l),
        (forall|j: int| 0 <= j < l.len() ==> (#[trigger] l[j]).2 <= b) ==> list_max(l) <= b,
    decreases l.len(),
{
    if l.len() > 0 {
        let l0 = l.drop_last();
        lemma_list_max(l0, b);
        assert forall|j: int| 0 <= j < l.len() implies (#[trigger] l[j]).2 <= list_max(l) by {
            if j < l.len() - 1 {
                assert(l[j] == l0[j]);
            }
        }
        if forall|j: int| 0 <= j < l.len() ==> (#[trigger] l[j]).2 <= b {
            assert forall|j: int| 0 <= j < l0.len() implies (#[trigger] l0[j]).2 <= b by {
                assert(l0[j] == l[j]);
            }
            assert(l[l.len() - 1].2 <= b);
        }
    }
}

/// Recording gives the recorded key a last use later than every other key's, so keys built by
/// recording alone were never last used at the same moment.
pub proof fn law_record_keeps_lasts_apart(
    v: UserView,
    key: Seq<char>,
    word: Seq<char>,
    rank: usize,
    navigated: bool,
    top: Option<Seq<char>>,
)
    requires
        user_wf(v),
        clock_ahead(v),
        all_distinct(key_lasts(v.choices)),
        v.clock < u64::MAX,
    ensures
        all_distinct(key_lasts(spec_record(v, key, word, rank, navigated, top).choices)),
        all_distinct(key_lasts(spec_record_negative(v, key, word).choices)),
        all_distinct(key_lasts(empty_user().choices)),
{
    if learnable_key(key) {
        let c = (v.clock + 1) as u64;
        let l = choices_for(v, key);
        let cs = v.choices;
        lemma_key_pos(skeys(cs), key);
        let p = key_pos(skeys(cs), key);
        if has_key(skeys(cs), key) {
            assert forall|j: int| 0 <= j < l.len() implies (#[trigger] l[j]).2 < c by {
                assert(cs[p].1[j].2 <= v.clock);
            }
        }
        lemma_chosen_front(l, word, c);
        let nl = chosen_list(l, word, c);
        law_record_keeps_clock_ahead(v, key, word, rank, navigated, top);
        let r = put(cs, key, nl);
        lemma_put_sorted(cs, key, nl);
        let q = key_pos(skeys(r), key);
        lemma_lookup_put(cs, key, nl);
        lemma_key_pos(skeys(r), key);
        assert(r[q].1 == nl);
        // every remembered choice of the new model is dated no later than `c`
        let v2 = spec_record(v, key, word, rank, navigated, top);
        assert(v2.clock == c);
        assert(v2.choices == r);
        assert(has_key(skeys(r), key));
        assert(q < r.len());
        assert forall|j: int| 0 <= j < nl.len() implies (#[trigger] nl[j]).2 <= c by {
            assert(v2.choices[q].1[j] == nl[j]);
            assert(v2.choices[q].1[j].2 <= v2.clock);
        }
        lemma_list_max(nl, c);
        assert(nl[0].2 == c);
        assert(list_max(nl) == c);
        let kl = key_lasts(cs);
        let kr = key_lasts(r);
        assert forall|a: int| 0 <= a < kl.len() implies #[trigger] kl[a] <= v.clock by {
            lemma_list_max(cs[a].1, v.clock);
            assert forall|j: int| 0 <= j < cs[a].1.len() implies (#[trigger] cs[a].1[j]).2 <= v.clock by {}
        }
        // each entry of `r` but the recorded key's is an entry of `cs`
        assert forall|a: int, b: int| 0 <= a < kr.len() && 0 <= b < kr.len() && a != b implies kr[a] != kr[b] by {
            let ia = if has_key(skeys(cs), key) { a } else if a < p { a } else { a - 1 };
            let ib = if has_key(skeys(cs), key) { b } else if b < p { b } else { b - 1 };
            assert(kr[a] == list_max(r[a].1));
            assert(kr[b] == list_max(r[b].1));
            if a == p {
                assert(kr[a] == c);
                assert(r[b] == cs[ib]);
                assert(kl[ib] <= v.clock);
            } else if b == p {
                assert(kr[b] == c);
                assert(r[a] == cs[ia]);
                assert(kl[ia] <= v.clock);
            } else {
                assert(r[a] == cs[ia]);
                assert(r[b] == cs[ib]);
                assert(kl[ia] != kl[ib]);
            }
        }
    }
    assert(spec_record_negative(v, key, word).choices == v.choices);
}

} // verus!
