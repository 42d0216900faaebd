//! The in-popup tashkeel editor, and "harakat from your vowels": diacritics for a candidate
//! derived from the Latin vowels and doubled consonants the user typed.
use vstd::prelude::*;
use crate::arabic::{
    spec_is_mark, spec_is_vowel_mark, flush, cmo_state, spec_canonical_mark_order, is_mark,
    is_vowel_mark, DAMMA, DAMMATAN, FATHA, FATHATAN, KASRA, KASRATAN, SHADDA, SUKUN,
    SUPERSCRIPT_ALEF,
};
use crate::alphabet::{char_of, spec_char_of};
use crate::dialect::Dialect;
use crate::display::TanweenStyle;
use crate::oov::Step;
use crate::seed::{VowelMarks, F_ARTICLE, F_GEM, F_TANWEEN, F_VOWEL};
use crate::text::{chars_of, push_char};

verus! {

#[derive(Clone, Copy, Debug, PartialEq, Eq, Structural)]
pub enum HarakatMode {
    Light,
    Full,
}

impl Default for HarakatMode {
    fn default() -> (r: Self)
        ensures
            r == HarakatMode::Light,
    {
        HarakatMode::Light
    }
}

/// Commands inside the tashkeel editor.
#[derive(Clone, Copy, Debug, PartialEq, Eq, Structural)]
pub enum TashkeelCmd {
    Fatha,
    Damma,
    Kasra,
    Sukun,
    ShaddaToggle,
    Fathatan,
    Dammatan,
    Kasratan,
    DaggerAlif,
    Clear,
    /// Backspace: clear marks on the focused letter, or back to the list if it has none.
    ClearOrBack,
    LetterNext,
    LetterPrev,
    LetterFirst,
    LetterLast,
    QuickPick(u8),
    PickUp,
    PickDown,
    Back,
    Ignore,
    /// Shift+→/← (visual): move the focus and add the new letter to the selection.
    ExtendNext,
    ExtendPrev,
    /// Remove every mark from every letter.
    ClearAll,
    /// Mouse selection of letter `index` (logical order).
    Select(u8, SelectMode),
}

/// How a mouse click on a letter changes the selection.
#[derive(Clone, Copy, Debug, PartialEq, Eq, Structural)]
pub enum SelectMode {
    /// Plain click: select only this letter.
    Only,
    /// Ctrl+click: add or remove this letter.
    Toggle,
    /// Shift+click (or drag): select the range from the focused letter to this one.
    Range,
}

#[derive(Clone, Debug, PartialEq, Eq)]
pub enum TashkeelAction {
    Continue,
    BackToList,
    Commit(String),
}

#[derive(Clone, Copy, Debug, PartialEq, Eq, Structural)]
pub struct LetterSlot {
    pub base: char,
    pub shadda: bool,
    pub dagger_alif: bool,
    pub vowel: Option<char>,
}

// ---------------------------------------------------------------------------------------------
// Letters of a marked word.

pub open spec fn bare_slot(c: char) -> LetterSlot {
    LetterSlot { base: c, shadda: false, dagger_alif: false, vowel: None }
}

/// `slot` with mark `c` added.
pub open spec fn add_mark(slot: LetterSlot, c: char) -> LetterSlot {
    if c == SHADDA {
        LetterSlot { shadda: true, ..slot }
    } else if c == SUPERSCRIPT_ALEF {
        LetterSlot { dagger_alif: true, ..slot }
    } else if spec_is_vowel_mark(c) {
        LetterSlot { vowel: Some(c), ..slot }
    } else {
        slot
    }
}

/// The letters of `w`, each with the marks that follow it (marks before the first letter are
/// dropped).
pub open spec fn word_slots(w: Seq<char>) -> Seq<LetterSlot>
    decreases w.len(),
{
    if w.len() == 0 {
        Seq::empty()
    } else {
        let prev = word_slots(w.drop_last());
        let c = w.last();
        if spec_is_mark(c) {
            if prev.len() == 0 {
                prev
            } else {
                prev.update(prev.len() - 1, add_mark(prev.last(), c))
            }
        } else {
            prev.push(bare_slot(c))
        }
    }
}

/// What the editor edits for word `w`: its letters, or one blank letter for an empty word.
pub open spec fn load_slots(w: Seq<char>) -> Seq<LetterSlot> {
    if word_slots(w).len() == 0 {
        seq![bare_slot(' ')]
    } else {
        word_slots(w)
    }
}

/// A letter as the editor renders it: the letter, shadda, vowel, superscript alef.
pub open spec fn slot_text(s: LetterSlot) -> Seq<char> {
    seq![s.base] + flush(s.shadda, s.vowel, s.dagger_alif)
}

pub open spec fn render_slots(slots: Seq<LetterSlot>) -> Seq<char>
    decreases slots.len(),
{
    if slots.len() == 0 {
        Seq::empty()
    } else {
        render_slots(slots.drop_last()) + slot_text(slots.last())
    }
}

/// A letter the editor can hold: its base is not a mark and its vowel is a vowel-class mark.
pub open spec fn slot_ok(s: LetterSlot) -> bool {
    &&& !spec_is_mark(s.base)
    &&& (s.vowel matches Some(v) ==> spec_is_vowel_mark(v))
}

proof fn lemma_word_slots_ok(w: Seq<char>)
    ensures
        forall|i: int| 0 <= i < word_slots(w).len() ==> slot_ok(#[trigger] word_slots(w)[i]),
    decreases w.len(),
{
    if w.len() > 0 {
        lemma_word_slots_ok(w.drop_last());
        let prev = word_slots(w.drop_last());
        let c = w.last();
        if spec_is_mark(c) {
            if prev.len() > 0 {
                assert(slot_ok(add_mark(prev.last(), c)));
            }
        } else {
            assert(slot_ok(bare_slot(c)));
        }
        assert forall|i: int| 0 <= i < word_slots(w).len() implies slot_ok(
            #[trigger] word_slots(w)[i],
        ) by {
            if i < prev.len() {
                assert(slot_ok(prev[i]));
            }
        }
    }
}

// ---------------------------------------------------------------------------------------------
// Selection.

/// Indices `k < n` with `sel[k]`, in increasing order.
pub open spec fn sel_indices(sel: Seq<bool>, n: int) -> Seq<usize>
    decreases n,
{
    if n <= 0 {
        Seq::empty()
    } else if sel[n - 1] {
        sel_indices(sel, n - 1).push((n - 1) as usize)
    } else {
        sel_indices(sel, n - 1)
    }
}

/// The selected letters among the first `n`; the focused one when none is selected.
pub open spec fn spec_selection(sel: Seq<bool>, n: int, focused: usize) -> Seq<usize> {
    if sel_indices(sel, n).len() == 0 && n > 0 {
        seq![focused]
    } else {
        sel_indices(sel, n)
    }
}

pub open spec fn any_selected(sel: Seq<bool>) -> bool {
    exists|j: int| 0 <= j < sel.len() && #[trigger] sel[j]
}

proof fn lemma_sel_indices(sel: Seq<bool>, n: int)
    requires
        0 <= n <= sel.len(),
        sel.len() <= usize::MAX,
    ensures
        forall|j: int|
            0 <= j < sel_indices(sel, n).len() ==> {
                let k = #[trigger] sel_indices(sel, n)[j];
                k < n && sel[k as int]
            },
        (exists|k: int| 0 <= k < n && #[trigger] sel[k]) ==> sel_indices(sel, n).len() > 0,
        forall|k: int| 0 <= k < n && sel[k] ==> #[trigger] sel_indices(sel, n).contains(k as usize),
    decreases n,
{
    if n > 0 {
        lemma_sel_indices(sel, n - 1);
        let p = sel_indices(sel, n - 1);
        if sel[n - 1] {
            assert forall|k: int| 0 <= k < n && sel[k] implies #[trigger] sel_indices(
                sel,
                n,
            ).contains(k as usize) by {
                if k < n - 1 {
                    assert(p.contains(k as usize));
                    let j = choose|j: int| 0 <= j < p.len() && p[j] == k as usize;
                    assert(sel_indices(sel, n)[j] == k as usize);
                } else {
                    assert(sel_indices(sel, n)[p.len() as int] == k as usize);
                }
            }
            assert forall|j: int| 0 <= j < sel_indices(sel, n).len() implies {
                let k = #[trigger] sel_indices(sel, n)[j];
                k < n && sel[k as int]
            } by {
                if j < p.len() {
                    assert(sel_indices(sel, n)[j] == p[j]);
                } else {
                    assert(sel_indices(sel, n)[j] == (n - 1) as usize);
                }
            }
        } else {
            assert forall|k: int| 0 <= k < n && sel[k] implies #[trigger] sel_indices(
                sel,
                n,
            ).contains(k as usize) by {
                assert(k < n - 1);
                assert(p.contains(k as usize));
            }
            if exists|k: int| 0 <= k < n && #[trigger] sel[k] {
                let k = choose|k: int| 0 <= k < n && #[trigger] sel[k];
                assert(k < n - 1);
            }
        }
    }
}

// ---------------------------------------------------------------------------------------------
// The editor's state.

/// The tashkeel editor's state as plain values.
#[verifier::ext_equal]
pub struct EditorModel {
    pub slots: Seq<LetterSlot>,
    pub focused: int,
    pub selected: Seq<bool>,
    pub picks: Seq<Seq<char>>,
    pub from_typing: bool,
    pub highlighted: Option<int>,
}

/// A consistent state: at least one letter, a focus on a letter that is selected, one selection
/// flag per letter, well-formed letters, and a highlighted pick that exists.
pub open spec fn model_ok(m: EditorModel) -> bool {
    &&& 1 <= m.slots.len() <= usize::MAX
    &&& m.selected.len() == m.slots.len()
    &&& 0 <= m.focused < m.slots.len()
    &&& m.selected[m.focused]
    &&& forall|i: int| 0 <= i < m.slots.len() ==> slot_ok(#[trigger] m.slots[i])
    &&& (m.highlighted matches Some(h) ==> 0 <= h < m.picks.len())
}

/// Only letter `i` of `n` selected.
pub open spec fn only(n: int, i: int) -> Seq<bool> {
    Seq::new(n as nat, |k: int| k == i)
}

/// Focus moved to `to` (clamped to the last letter), which is then selected alone or added to
/// the selection.
pub open spec fn focus_moved(m: EditorModel, to: int, extend: bool) -> EditorModel {
    let f = if to < m.slots.len() - 1 { to } else { m.slots.len() - 1 };
    EditorModel {
        focused: f,
        selected: if extend { m.selected.update(f, true) } else { only(m.slots.len() as int, f) },
        ..m
    }
}

/// Word `w` loaded: its letters; the focus stays unless past the end; only the focus selected.
pub open spec fn word_loaded(m: EditorModel, w: Seq<char>) -> EditorModel {
    let slots = load_slots(w);
    let f = if m.focused >= slots.len() { slots.len() - 1 } else { m.focused };
    EditorModel { slots, focused: f, selected: only(slots.len() as int, f), ..m }
}

pub open spec fn cleared(s: LetterSlot) -> LetterSlot {
    LetterSlot { shadda: false, dagger_alif: false, vowel: None, ..s }
}

pub open spec fn has_marks(s: LetterSlot) -> bool {
    s.shadda || s.dagger_alif || s.vowel is Some
}

/// A bare alif or alif maqsura: takes no vowel (fathatan on it is tanween) and no shadda.
pub open spec fn is_bare(c: char) -> bool {
    c == '\u{0627}' || c == '\u{0649}'
}

/// Letter `k` is selected and can take vowel `v`.
pub open spec fn takes_vowel(m: EditorModel, v: char, k: int) -> bool {
    m.selected[k] && (!is_bare(m.slots[k].base) || v == FATHATAN)
}

/// Vowel-class mark `v` on every selected letter that can take it.
pub open spec fn vowel_put(m: EditorModel, v: char) -> EditorModel {
    with_slots(
        m,
        Seq::new(
            m.slots.len(),
            |k: int|
                if takes_vowel(m, v, k) {
                    LetterSlot { vowel: Some(v), ..m.slots[k] }
                } else {
                    m.slots[k]
                },
        ),
    )
}

/// Some selected letter can take vowel `v`.
pub open spec fn vowel_lands(m: EditorModel, v: char) -> bool {
    exists|k: int| 0 <= k < m.slots.len() && #[trigger] takes_vowel(m, v, k)
}

/// With exactly one letter selected, the focus moves on to the next letter (if any).
pub open spec fn advanced(m: EditorModel) -> EditorModel {
    let n = m.slots.len() as int;
    if spec_selection(m.selected, n, m.focused as usize).len() == 1 && m.focused + 1 < n {
        focus_moved(m, m.focused + 1, false)
    } else {
        m
    }
}

/// Vowel `v` put on the selected letters; when it landed, the focus may move on.
pub open spec fn vowel_applied(m: EditorModel, v: char) -> EditorModel {
    if vowel_lands(m, v) {
        advanced(vowel_put(m, v))
    } else {
        vowel_put(m, v)
    }
}

/// Shadda goes on every selected letter that can take it, unless all of them have it already.
pub open spec fn shadda_target(m: EditorModel) -> bool {
    !(forall|k: int|
        0 <= k < m.slots.len() && m.selected[k] && !is_bare(m.slots[k].base)
            ==> #[trigger] m.slots[k].shadda)
}

pub open spec fn shadda_toggled(m: EditorModel) -> EditorModel {
    with_slots(
        m,
        Seq::new(
            m.slots.len(),
            |k: int|
                if m.selected[k] && !is_bare(m.slots[k].base) {
                    LetterSlot { shadda: shadda_target(m), ..m.slots[k] }
                } else {
                    m.slots[k]
                },
        ),
    )
}

/// Superscript alef goes on every selected letter, unless all of them have it already.
pub open spec fn dagger_target(m: EditorModel) -> bool {
    !(forall|k: int| 0 <= k < m.slots.len() && m.selected[k] ==> #[trigger] m.slots[k].dagger_alif)
}

pub open spec fn dagger_toggled(m: EditorModel) -> EditorModel {
    with_slots(
        m,
        Seq::new(
            m.slots.len(),
            |k: int|
                if m.selected[k] {
                    LetterSlot { dagger_alif: dagger_target(m), ..m.slots[k] }
                } else {
                    m.slots[k]
                },
        ),
    )
}

/// Some selected letter carries a mark.
pub open spec fn selection_marked(m: EditorModel) -> bool {
    exists|k: int| 0 <= k < m.slots.len() && m.selected[k] && #[trigger] has_marks(m.slots[k])
}

pub open spec fn with_slots(m: EditorModel, slots: Seq<LetterSlot>) -> EditorModel {
    EditorModel { slots, ..m }
}

pub open spec fn with_selected(m: EditorModel, selected: Seq<bool>) -> EditorModel {
    EditorModel { selected, ..m }
}

/// Marks cleared on every letter (`all`) or on the selected ones.
pub open spec fn cleared_where(m: EditorModel, all: bool) -> EditorModel {
    with_slots(
        m,
        Seq::new(
            m.slots.len(),
            |k: int| if all || m.selected[k] { cleared(m.slots[k]) } else { m.slots[k] },
        ),
    )
}

/// The selection after a mouse click on letter `i < n`.
pub open spec fn clicked(m: EditorModel, i: int, mode: SelectMode) -> EditorModel {
    let n = m.slots.len() as int;
    let f = m.focused;
    match mode {
        SelectMode::Only => focus_moved(m, i, false),
        SelectMode::Toggle => {
            let s2 = m.selected.update(i, !m.selected[i]);
            if s2[i] {
                EditorModel { selected: s2, focused: i, ..m }
            } else if !any_selected(s2) {
                focus_moved(EditorModel { selected: s2, ..m }, i, false)
            } else if f == i {
                EditorModel { selected: s2, focused: sel_indices(s2, n)[0] as int, ..m }
            } else {
                EditorModel { selected: s2, ..m }
            }
        },
        SelectMode::Range => {
            let a = if i < f { i } else { f };
            let b = if i < f { f } else { i };
            EditorModel { selected: Seq::new(n as nat, |k: int| a <= k <= b), focused: i, ..m }
        },
    }
}

/// The highlighted pick after Pick↓ (`down`) or Pick↑ in a list of `len > 0` picks.
pub open spec fn next_pick(cur: Option<int>, down: bool, len: int) -> int {
    match cur {
        None => 0,
        Some(c) => if down {
            (c + 1) % len
        } else {
            (c + len - 1) % len
        },
    }
}

/// Quick pick `k` (counted from 1): that pick loaded and highlighted, if it exists.
pub open spec fn quick_picked(m: EditorModel, k: int) -> EditorModel {
    let idx = if k > 0 { k - 1 } else { 0 };
    if idx < m.picks.len() {
        EditorModel { highlighted: Some(idx), ..word_loaded(m, m.picks[idx]) }
    } else {
        m
    }
}

/// The next (`down`) or previous pick loaded and highlighted, if there are picks.
pub open spec fn pick_cycled(m: EditorModel, down: bool) -> EditorModel {
    if m.picks.len() == 0 {
        m
    } else {
        let next = next_pick(m.highlighted, down, m.picks.len() as int);
        EditorModel { highlighted: Some(next), ..word_loaded(m, m.picks[next]) }
    }
}

/// The state after a command, and what the popup does next.
pub open spec fn spec_apply(m: EditorModel, cmd: TashkeelCmd) -> (EditorModel, TashkeelAction) {
    let n = m.slots.len() as int;
    let f = m.focused;
    let prev = if f > 0 { f - 1 } else { 0 };
    match cmd {
        TashkeelCmd::Back => (m, TashkeelAction::BackToList),
        TashkeelCmd::Ignore => (m, TashkeelAction::Continue),
        TashkeelCmd::LetterNext => (focus_moved(m, f + 1, false), TashkeelAction::Continue),
        TashkeelCmd::LetterPrev => (focus_moved(m, prev, false), TashkeelAction::Continue),
        TashkeelCmd::ExtendNext => (focus_moved(m, f + 1, true), TashkeelAction::Continue),
        TashkeelCmd::ExtendPrev => (focus_moved(m, prev, true), TashkeelAction::Continue),
        TashkeelCmd::LetterFirst => (focus_moved(m, 0, false), TashkeelAction::Continue),
        TashkeelCmd::LetterLast => (focus_moved(m, n - 1, false), TashkeelAction::Continue),
        TashkeelCmd::Select(index, mode) => {
            if index < n {
                (clicked(m, index as int, mode), TashkeelAction::Continue)
            } else {
                (m, TashkeelAction::Continue)
            }
        },
        TashkeelCmd::ClearAll => (cleared_where(m, true), TashkeelAction::Continue),
        TashkeelCmd::Clear => (cleared_where(m, false), TashkeelAction::Continue),
        TashkeelCmd::ClearOrBack => {
            if selection_marked(m) {
                (cleared_where(m, false), TashkeelAction::Continue)
            } else {
                (m, TashkeelAction::BackToList)
            }
        },
        TashkeelCmd::ShaddaToggle => (shadda_toggled(m), TashkeelAction::Continue),
        TashkeelCmd::DaggerAlif => (dagger_toggled(m), TashkeelAction::Continue),
        TashkeelCmd::QuickPick(k) => (quick_picked(m, k as int), TashkeelAction::Continue),
        TashkeelCmd::PickDown => (pick_cycled(m, true), TashkeelAction::Continue),
        TashkeelCmd::PickUp => (pick_cycled(m, false), TashkeelAction::Continue),
        TashkeelCmd::Fatha => (vowel_applied(m, FATHA), TashkeelAction::Continue),
        TashkeelCmd::Damma => (vowel_applied(m, DAMMA), TashkeelAction::Continue),
        TashkeelCmd::Kasra => (vowel_applied(m, KASRA), TashkeelAction::Continue),
        TashkeelCmd::Sukun => (vowel_applied(m, SUKUN), TashkeelAction::Continue),
        TashkeelCmd::Fathatan => (vowel_applied(m, FATHATAN), TashkeelAction::Continue),
        TashkeelCmd::Dammatan => (vowel_applied(m, DAMMATAN), TashkeelAction::Continue),
        TashkeelCmd::Kasratan => (vowel_applied(m, KASRATAN), TashkeelAction::Continue),
    }
}

// ---------------------------------------------------------------------------------------------
// The editor.

/// The in-popup tashkeel editor. Marks apply to every selected letter; the focused letter is
/// always selected. Entering the editor selects the first letter.
#[derive(Clone, Debug, PartialEq)]
pub struct TashkeelEditor {
    pub slots: Vec<LetterSlot>,
    pub focused_letter: usize,
    /// Selected letters (logical order), parallel to `slots`.
    pub selected: Vec<bool>,
    pub picks: Vec<String>,
    pub from_typing: bool,
    pub highlighted_pick: Option<usize>,
}

pub open spec fn picks_view(p: Seq<String>) -> Seq<Seq<char>> {
    p.map_values(|s: String| s@)
}

fn any_true(v: &Vec<bool>) -> (r: bool)
    ensures
        r == any_selected(v@),
{
    let mut i: usize = 0;
    while i < v.len()
        invariant
            i <= v.len(),
            forall|j: int| 0 <= j < i ==> !v@[j],
        decreases v.len() - i,
    {
        if v[i] {
            return true;
        }
        i += 1;
    }
    false
}

impl TashkeelEditor {
    pub open spec fn model(&self) -> EditorModel {
        EditorModel {
            slots: self.slots@,
            focused: self.focused_letter as int,
            selected: self.selected@,
            picks: picks_view(self.picks@),
            from_typing: self.from_typing,
            highlighted: match self.highlighted_pick {
                Some(h) => Some(h as int),
                None => None,
            },
        }
    }

    /// An editor on `word` with quick `picks`; the first letter focused and selected.
    pub fn new(word: &str, picks: Vec<String>, from_typing: bool) -> (e: Self)
        ensures
            e.slots@ == load_slots(word@),
            e.focused_letter == 0,
            e.selected@ == only(load_slots(word@).len() as int, 0),
            e.picks == picks,
            e.from_typing == from_typing,
            e.highlighted_pick is None,
            model_ok(e.model()),
    {
        let mut editor = TashkeelEditor {
            slots: Vec::new(),
            focused_letter: 0,
            selected: Vec::new(),
            picks,
            from_typing,
            highlighted_pick: None,
        };
        editor.load_word(word);
        editor
    }

    /// Edit `word`: its letters with their marks (one blank letter for an empty word); the focus
    /// stays unless past the end, and only it is selected.
    pub fn load_word(&mut self, word: &str)
        ensures
            final(self).model() == word_loaded(old(self).model(), word@),
            final(self).picks == old(self).picks,
            (old(self).highlighted_pick matches Some(h) ==> h < old(self).picks.len()) ==> model_ok(
                final(self).model(),
            ),
    {
        let cs = chars_of(word);
        let mut slots: Vec<LetterSlot> = Vec::new();
        let mut i: usize = 0;
        while i < cs.len()
            invariant
                i <= cs.len(),
                cs@ == word@,
                slots@ == word_slots(cs@.take(i as int)),
            decreases cs.len() - i,
        {
            assert(cs@.take(i + 1).drop_last() =~= cs@.take(i as int));
            let c = cs[i];
            if is_mark(c) {
                let n = slots.len();
                if n > 0 {
                    let mut slot = slots[n - 1];
                    if c == SHADDA {
                        slot.shadda = true;
                    } else if c == SUPERSCRIPT_ALEF {
                        slot.dagger_alif = true;
                    } else if is_vowel_mark(c) {
                        slot.vowel = Some(c);
                    }
                    slots.set(n - 1, slot);
                }
            } else {
                slots.push(LetterSlot { base: c, shadda: false, dagger_alif: false, vowel: None });
            }
            i += 1;
        }
        assert(cs@.take(cs@.len() as int) =~= cs@);
        proof {
            lemma_word_slots_ok(word@);
        }
        if slots.len() == 0 {
            slots.push(LetterSlot { base: ' ', shadda: false, dagger_alif: false, vowel: None });
        }
        assert(slots@ =~= load_slots(word@));
        self.slots = slots;
        if self.focused_letter >= self.slots.len() {
            self.focused_letter = self.slots.len() - 1;
        }
        let f = self.focused_letter;
        self.select_only(f);
    }

    /// Indices of the selected letters, in logical order (the focused one if none is).
    pub fn selection(&self) -> (r: Vec<usize>)
        requires
            self.selected.len() >= self.slots.len(),
        ensures
            r@ == spec_selection(self.selected@, self.slots.len() as int, self.focused_letter),
    {
        let n = self.slots.len();
        let mut v: Vec<usize> = Vec::new();
        let mut k: usize = 0;
        while k < n
            invariant
                k <= n,
                n == self.slots.len(),
                self.selected.len() >= n,
                v@ == sel_indices(self.selected@, k as int),
            decreases n - k,
        {
            if self.selected[k] {
                v.push(k);
            }
            k += 1;
        }
        if v.len() == 0 && n > 0 {
            let mut w: Vec<usize> = Vec::new();
            w.push(self.focused_letter);
            assert(w@ =~= seq![self.focused_letter]);
            w
        } else {
            v
        }
    }

    fn select_only(&mut self, i: usize)
        ensures
            final(self).model() == with_selected(old(self).model(), only(old(self).slots.len() as int, i as int)),
            final(self).picks == old(self).picks,
            final(self).slots == old(self).slots,
    {
        let n = self.slots.len();
        let mut sel: Vec<bool> = Vec::new();
        let mut k: usize = 0;
        while k < n
            invariant
                k <= n,
                n == self.slots.len(),
                sel@ =~= Seq::new(k as nat, |j: int| j == i as int),
            decreases n - k,
        {
            sel.push(k == i);
            k += 1;
        }
        self.selected = sel;
    }

    fn move_focus(&mut self, to: usize, extend: bool)
        requires
            old(self).slots.len() >= 1,
            old(self).selected.len() == old(self).slots.len(),
        ensures
            final(self).model() == focus_moved(old(self).model(), to as int, extend),
    {
        let last = self.slots.len() - 1;
        let f = if to < last { to } else { last };
        self.focused_letter = f;
        if extend {
            self.selected.set(f, true);
        } else {
            self.select_only(f);
        }
    }

    fn has_marks(&self, i: usize) -> (r: bool)
        requires
            i < self.slots.len(),
        ensures
            r == has_marks(self.slots@[i as int]),
    {
        let s = self.slots[i];
        s.shadda || s.dagger_alif || s.vowel.is_some()
    }

    /// Every mark removed from every letter (`all`) or from the selected ones.
    fn clear_where(&mut self, all: bool)
        requires
            old(self).selected.len() == old(self).slots.len(),
        ensures
            final(self).model() == cleared_where(old(self).model(), all),
    {
        let ghost m0 = self.model();
        let n = self.slots.len();
        let mut k: usize = 0;
        while k < n
            invariant
                k <= n,
                n == m0.slots.len(),
                self.slots@.len() == n,
                self.selected@ == m0.selected,
                self.selected@.len() == n,
                self.focused_letter == m0.focused,
                picks_view(self.picks@) == m0.picks,
                self.from_typing == m0.from_typing,
                self.model().highlighted == m0.highlighted,
                forall|j: int|
                    0 <= j < k ==> #[trigger] self.slots@[j] == (if all || m0.selected[j] {
                        cleared(m0.slots[j])
                    } else {
                        m0.slots[j]
                    }),
                forall|j: int| k <= j < n ==> #[trigger] self.slots@[j] == m0.slots[j],
            decreases n - k,
        {
            if all || self.selected[k] {
                let s = self.slots[k];
                self.slots.set(
                    k,
                    LetterSlot { base: s.base, shadda: false, dagger_alif: false, vowel: None },
                );
                assert(self.slots@[k as int] == cleared(m0.slots[k as int]));
            } else {
                assert(!m0.selected[k as int]);
            }
            k += 1;
        }
        assert(self.slots@ =~= Seq::new(
            n as nat,
            |k: int| if all || m0.selected[k] { cleared(m0.slots[k]) } else { m0.slots[k] },
        ));
    }

    fn toggle_shadda(&mut self)
        requires
            old(self).selected.len() == old(self).slots.len(),
        ensures
            final(self).model() == shadda_toggled(old(self).model()),
    {
        let ghost m0 = self.model();
        let n = self.slots.len();
        let mut all_have = true;
        let mut k: usize = 0;
        while k < n
            invariant
                k <= n,
                n == self.slots.len(),
                self.selected.len() == n,
                self.model() == m0,
                all_have == (forall|j: int|
                    0 <= j < k && m0.selected[j] && !is_bare(m0.slots[j].base)
                        ==> #[trigger] m0.slots[j].shadda),
            decreases n - k,
        {
            let s = self.slots[k];
            if self.selected[k] && !(s.base == '\u{0627}' || s.base == '\u{0649}') && !s.shadda {
                all_have = false;
            }
            k += 1;
        }
        let target = !all_have;
        assert(target == shadda_target(m0));
        let mut k: usize = 0;
        while k < n
            invariant
                k <= n,
                n == m0.slots.len(),
                self.slots@.len() == n,
                self.selected@ == m0.selected,
                m0.selected.len() == n,
                self.focused_letter == m0.focused,
                picks_view(self.picks@) == m0.picks,
                self.from_typing == m0.from_typing,
                self.model().highlighted == m0.highlighted,
                target == shadda_target(m0),
                forall|j: int|
                    0 <= j < k ==> #[trigger] self.slots@[j] == shadda_toggled(m0).slots[j],
                forall|j: int| k <= j < n ==> #[trigger] self.slots@[j] == m0.slots[j],
            decreases n - k,
        {
            let s = self.slots[k];
            if self.selected[k] && !(s.base == '\u{0627}' || s.base == '\u{0649}') {
                self.slots.set(
                    k,
                    LetterSlot { base: s.base, shadda: target, dagger_alif: s.dagger_alif, vowel: s.vowel },
                );
            }
            k += 1;
        }
        assert(self.slots@ =~= shadda_toggled(m0).slots);
    }

    fn toggle_dagger(&mut self)
        requires
            old(self).selected.len() == old(self).slots.len(),
        ensures
            final(self).model() == dagger_toggled(old(self).model()),
    {
        let ghost m0 = self.model();
        let n = self.slots.len();
        let mut all_have = true;
        let mut k: usize = 0;
        while k < n
            invariant
                k <= n,
                n == self.slots.len(),
                self.selected.len() == n,
                self.model() == m0,
                all_have == (forall|j: int|
                    0 <= j < k && m0.selected[j] ==> #[trigger] m0.slots[j].dagger_alif),
            decreases n - k,
        {
            if self.selected[k] && !self.slots[k].dagger_alif {
                all_have = false;
            }
            k += 1;
        }
        let target = !all_have;
        assert(target == dagger_target(m0));
        let mut k: usize = 0;
        while k < n
            invariant
                k <= n,
                n == m0.slots.len(),
                self.slots@.len() == n,
                self.selected@ == m0.selected,
                m0.selected.len() == n,
                self.focused_letter == m0.focused,
                picks_view(self.picks@) == m0.picks,
                self.from_typing == m0.from_typing,
                self.model().highlighted == m0.highlighted,
                target == dagger_target(m0),
                forall|j: int|
                    0 <= j < k ==> #[trigger] self.slots@[j] == dagger_toggled(m0).slots[j],
                forall|j: int| k <= j < n ==> #[trigger] self.slots@[j] == m0.slots[j],
            decreases n - k,
        {
            let s = self.slots[k];
            if self.selected[k] {
                self.slots.set(
                    k,
                    LetterSlot { base: s.base, shadda: s.shadda, dagger_alif: target, vowel: s.vowel },
                );
            }
            k += 1;
        }
        assert(self.slots@ =~= dagger_toggled(m0).slots);
    }

    /// Vowel `v` on every selected letter that can take it; whether it landed anywhere.
    fn put_vowel(&mut self, v: char) -> (applied: bool)
        requires
            old(self).selected.len() == old(self).slots.len(),
        ensures
            final(self).model() == vowel_put(old(self).model(), v),
            applied == vowel_lands(old(self).model(), v),
    {
        let ghost m0 = self.model();
        let n = self.slots.len();
        let mut applied = false;
        let mut k: usize = 0;
        while k < n
            invariant
                k <= n,
                n == m0.slots.len(),
                self.slots@.len() == n,
                self.selected@ == m0.selected,
                m0.selected.len() == n,
                self.focused_letter == m0.focused,
                picks_view(self.picks@) == m0.picks,
                self.from_typing == m0.from_typing,
                self.model().highlighted == m0.highlighted,
                applied == (exists|j: int| 0 <= j < k && #[trigger] takes_vowel(m0, v, j)),
                forall|j: int| 0 <= j < k ==> #[trigger] self.slots@[j] == vowel_put(m0, v).slots[j],
                forall|j: int| k <= j < n ==> #[trigger] self.slots@[j] == m0.slots[j],
            decreases n - k,
        {
            let s = self.slots[k];
            // A bare alif / alif maqsura takes no vowel; fathatan on alif is tanween.
            let bare = s.base == '\u{0627}' || s.base == '\u{0649}';
            if self.selected[k] && (!bare || v == FATHATAN) {
                self.slots.set(
                    k,
                    LetterSlot { base: s.base, shadda: s.shadda, dagger_alif: s.dagger_alif, vowel: Some(v) },
                );
                assert(takes_vowel(m0, v, k as int));
                applied = true;
            } else {
                assert(!takes_vowel(m0, v, k as int));
            }
            k += 1;
        }
        assert(self.slots@ =~= vowel_put(m0, v).slots);
        applied
    }

    /// After a vowel on a single selected letter, the focus moves to the next letter.
    fn advance_if_single(&mut self)
        requires
            old(self).slots.len() >= 1,
            old(self).selected.len() == old(self).slots.len(),
        ensures
            final(self).model() == advanced(old(self).model()),
    {
        if self.selection().len() == 1 && self.focused_letter < self.slots.len() - 1 {
            let next = self.focused_letter + 1;
            self.move_focus(next, false);
        }
    }

    /// A mouse click on letter `i`.
    fn click(&mut self, i: usize, mode: SelectMode)
        requires
            model_ok(old(self).model()),
            i < old(self).slots.len(),
        ensures
            final(self).model() == clicked(old(self).model(), i as int, mode),
    {
        let ghost m0 = self.model();
        let n = self.slots.len();
        match mode {
            SelectMode::Only => self.move_focus(i, false),
            SelectMode::Toggle => {
                let cur = self.selected[i];
                self.selected.set(i, !cur);
                if !cur {
                    self.focused_letter = i;
                } else if self.selection().len() == 0 || !any_true(&self.selected) {
                    self.move_focus(i, false);
                } else if self.focused_letter == i {
                    let sel = self.selection();
                    proof {
                        lemma_sel_indices(self.selected@, n as int);
                    }
                    self.focused_letter = sel[0];
                }
            },
            SelectMode::Range => {
                let f = self.focused_letter;
                let (a, b) = if i < f {
                    (i, f)
                } else {
                    (f, i)
                };
                let mut sel: Vec<bool> = Vec::new();
                let mut k: usize = 0;
                while k < n
                    invariant
                        k <= n,
                        sel@ =~= Seq::new(k as nat, |j: int| a <= j <= b),
                    decreases n - k,
                {
                    sel.push(a <= k && k <= b);
                    k += 1;
                }
                self.selected = sel;
                self.focused_letter = i;
            },
        }
    }

    /// Quick pick `k` (counted from 1) loaded and highlighted, if it exists.
    fn quick_pick(&mut self, k: u8)
        ensures
            final(self).model() == quick_picked(old(self).model(), k as int),
            model_ok(old(self).model()) ==> model_ok(final(self).model()),
    {
        let idx: usize = if k > 0 {
            (k - 1) as usize
        } else {
            0
        };
        if idx < self.picks.len() {
            let word = self.picks[idx].clone();
            self.load_word(word.as_str());
            self.highlighted_pick = Some(idx);
        }
    }

    /// The next (`down`) or previous pick loaded and highlighted, if there are picks.
    fn cycle_pick(&mut self, down: bool)
        requires
            old(self).highlighted_pick matches Some(h) ==> h < old(self).picks.len(),
        ensures
            final(self).model() == pick_cycled(old(self).model(), down),
            model_ok(old(self).model()) ==> model_ok(final(self).model()),
    {
        if self.picks.len() > 0 {
            let len = self.picks.len();
            let next_idx: usize = match self.highlighted_pick {
                None => 0,
                Some(cur) => {
                    if down {
                        if cur + 1 == len {
                            proof {
                                vstd::arithmetic::div_mod::lemma_mod_self_0(len as int);
                            }
                            0
                        } else {
                            proof {
                                vstd::arithmetic::div_mod::lemma_small_mod(
                                    (cur + 1) as nat,
                                    len as nat,
                                );
                            }
                            cur + 1
                        }
                    } else if cur == 0 {
                        proof {
                            vstd::arithmetic::div_mod::lemma_small_mod(
                                (len - 1) as nat,
                                len as nat,
                            );
                        }
                        len - 1
                    } else {
                        proof {
                            vstd::arithmetic::div_mod::lemma_mod_add_multiples_vanish(
                                cur - 1,
                                len as int,
                            );
                            vstd::arithmetic::div_mod::lemma_small_mod(
                                (cur - 1) as nat,
                                len as nat,
                            );
                        }
                        cur - 1
                    }
                },
            };
            assert(next_idx == next_pick(self.model().highlighted, down, len as int));
            self.highlighted_pick = Some(next_idx);
            let word = self.picks[next_idx].clone();
            self.load_word(word.as_str());
        }
    }

    /// The editor's letters, each followed by shadda, its vowel and superscript alef.
    pub fn render(&self) -> (r: String)
        ensures
            r@ == render_slots(self.slots@),
    {
        let mut out = String::new();
        let mut i: usize = 0;
        while i < self.slots.len()
            invariant
                i <= self.slots.len(),
                out@ == render_slots(self.slots@.take(i as int)),
            decreases self.slots.len() - i,
        {
            let slot = self.slots[i];
            assert(self.slots@.take(i + 1).drop_last() =~= self.slots@.take(i as int));
            let ghost before = out@;
            push_char(&mut out, slot.base);
            if slot.shadda {
                push_char(&mut out, SHADDA);
            }
            if let Some(v) = slot.vowel {
                push_char(&mut out, v);
            }
            if slot.dagger_alif {
                push_char(&mut out, SUPERSCRIPT_ALEF);
            }
            assert(out@ =~= before + slot_text(slot));
            i += 1;
        }
        assert(self.slots@.take(self.slots.len() as int) =~= self.slots@);
        out
    }

    /// Apply one editor command.
    pub fn apply_cmd(&mut self, cmd: TashkeelCmd) -> (r: TashkeelAction)
        requires
            model_ok(old(self).model()),
        ensures
            final(self).model() == spec_apply(old(self).model(), cmd).0,
            r == spec_apply(old(self).model(), cmd).1,
            model_ok(final(self).model()),
    {
        proof {
            lemma_apply_ok(self.model(), cmd);
        }
        let n = self.slots.len();
        match cmd {
            TashkeelCmd::Back => TashkeelAction::BackToList,
            TashkeelCmd::Ignore => TashkeelAction::Continue,
            TashkeelCmd::LetterNext => {
                self.move_focus(self.focused_letter + 1, false);
                TashkeelAction::Continue
            },
            TashkeelCmd::LetterPrev => {
                let to = if self.focused_letter > 0 { self.focused_letter - 1 } else { 0 };
                self.move_focus(to, false);
                TashkeelAction::Continue
            },
            TashkeelCmd::ExtendNext => {
                self.move_focus(self.focused_letter + 1, true);
                TashkeelAction::Continue
            },
            TashkeelCmd::ExtendPrev => {
                let to = if self.focused_letter > 0 { self.focused_letter - 1 } else { 0 };
                self.move_focus(to, true);
                TashkeelAction::Continue
            },
            TashkeelCmd::LetterFirst => {
                self.move_focus(0, false);
                TashkeelAction::Continue
            },
            TashkeelCmd::LetterLast => {
                self.move_focus(n - 1, false);
                TashkeelAction::Continue
            },
            TashkeelCmd::Select(index, mode) => {
                let i = index as usize;
                if i < n {
                    self.click(i, mode);
                }
                TashkeelAction::Continue
            },
            TashkeelCmd::ClearAll => {
                self.clear_where(true);
                TashkeelAction::Continue
            },
            TashkeelCmd::Clear => {
                self.clear_where(false);
                TashkeelAction::Continue
            },
            TashkeelCmd::ClearOrBack => {
                let mut marked = false;
                let mut k: usize = 0;
                while k < n
                    invariant
                        k <= n,
                        n == self.slots.len(),
                        self.selected.len() == n,
                        marked == (exists|j: int|
                            0 <= j < k && self.selected@[j] && #[trigger] has_marks(self.slots@[j])),
                    decreases n - k,
                {
                    if self.selected[k] && self.has_marks(k) {
                        marked = true;
                    }
                    k += 1;
                }
                if marked {
                    self.clear_where(false);
                    TashkeelAction::Continue
                } else {
                    TashkeelAction::BackToList
                }
            },
            TashkeelCmd::ShaddaToggle => {
                self.toggle_shadda();
                TashkeelAction::Continue
            },
            TashkeelCmd::DaggerAlif => {
                self.toggle_dagger();
                TashkeelAction::Continue
            },
            TashkeelCmd::QuickPick(k) => {
                self.quick_pick(k);
                TashkeelAction::Continue
            },
            TashkeelCmd::PickDown => {
                self.cycle_pick(true);
                TashkeelAction::Continue
            },
            TashkeelCmd::PickUp => {
                self.cycle_pick(false);
                TashkeelAction::Continue
            },
            TashkeelCmd::Fatha | TashkeelCmd::Damma | TashkeelCmd::Kasra | TashkeelCmd::Sukun
            | TashkeelCmd::Fathatan | TashkeelCmd::Dammatan | TashkeelCmd::Kasratan => {
                let v = match cmd {
                    TashkeelCmd::Fatha => FATHA,
                    TashkeelCmd::Damma => DAMMA,
                    TashkeelCmd::Kasra => KASRA,
                    TashkeelCmd::Sukun => SUKUN,
                    TashkeelCmd::Fathatan => FATHATAN,
                    TashkeelCmd::Dammatan => DAMMATAN,
                    _ => KASRATAN,
                };
                if self.put_vowel(v) {
                    self.advance_if_single();
                }
                TashkeelAction::Continue
            },
        }
    }

}


// ---------------------------------------------------------------------------------------------
// What every command keeps.

proof fn lemma_slots_ok_after(m: EditorModel, m2: EditorModel)
    requires
        model_ok(m),
        m2.slots.len() == m.slots.len(),
        m2.selected == m.selected,
        m2.focused == m.focused,
        m2.picks == m.picks,
        m2.highlighted == m.highlighted,
        forall|k: int| 0 <= k < m.slots.len() ==> slot_ok(#[trigger] m2.slots[k]),
    ensures
        model_ok(m2),
{
}

/// Every command but the ones that load a pick keeps a consistent state (those are covered by
/// `TashkeelEditor::load_word`, which knows the word's length).
proof fn lemma_apply_ok(m: EditorModel, cmd: TashkeelCmd)
    requires
        model_ok(m),
    ensures
        !(cmd is QuickPick || cmd is PickDown || cmd is PickUp) ==> model_ok(spec_apply(m, cmd).0),
{
    let n = m.slots.len() as int;
    match cmd {
        TashkeelCmd::Select(index, mode) => {
            if index < n {
                let i = index as int;
                match mode {
                    SelectMode::Toggle => {
                        let s2 = m.selected.update(i, !m.selected[i]);
                        if !s2[i] && any_selected(s2) && m.focused == i {
                            lemma_sel_indices(s2, n);
                            let j = choose|j: int| 0 <= j < s2.len() && #[trigger] s2[j];
                            assert(0 <= j < n && s2[j]);
                        }
                    },
                    _ => {},
                }
            }
        },
        TashkeelCmd::ClearAll => {
            lemma_slots_ok_after(m, cleared_where(m, true));
        },
        TashkeelCmd::Clear | TashkeelCmd::ClearOrBack => {
            lemma_slots_ok_after(m, cleared_where(m, false));
        },
        TashkeelCmd::ShaddaToggle => {
            lemma_slots_ok_after(m, shadda_toggled(m));
        },
        TashkeelCmd::DaggerAlif => {
            lemma_slots_ok_after(m, dagger_toggled(m));
        },
        TashkeelCmd::Fatha | TashkeelCmd::Damma | TashkeelCmd::Kasra | TashkeelCmd::Sukun
        | TashkeelCmd::Fathatan | TashkeelCmd::Dammatan | TashkeelCmd::Kasratan => {
            let v = match cmd {
                TashkeelCmd::Fatha => FATHA,
                TashkeelCmd::Damma => DAMMA,
                TashkeelCmd::Kasra => KASRA,
                TashkeelCmd::Sukun => SUKUN,
                TashkeelCmd::Fathatan => FATHATAN,
                TashkeelCmd::Dammatan => DAMMATAN,
                _ => KASRATAN,
            };
            assert(spec_is_vowel_mark(v));
            lemma_slots_ok_after(m, vowel_put(m, v));
        },
        _ => {},
    }
}

/// The focused letter is always among the selected ones, and the selection lists letters of the
/// word in increasing order, never empty.
pub proof fn law_selection_holds_focus(m: EditorModel)
    requires
        model_ok(m),
    ensures
        spec_selection(m.selected, m.slots.len() as int, m.focused as usize).contains(
            m.focused as usize,
        ),
        forall|j: int|
            0 <= j < spec_selection(m.selected, m.slots.len() as int, m.focused as usize).len()
                ==> #[trigger] spec_selection(m.selected, m.slots.len() as int, m.focused as usize)[j]
                < m.slots.len(),
        forall|i: int, j: int|
            0 <= i < j < spec_selection(m.selected, m.slots.len() as int, m.focused as usize).len()
                ==> #[trigger] spec_selection(m.selected, m.slots.len() as int, m.focused as usize)[i]
                < #[trigger] spec_selection(m.selected, m.slots.len() as int, m.focused as usize)[j],
{
    lemma_sel_indices(m.selected, m.slots.len() as int);
    lemma_sel_indices_increasing(m.selected, m.slots.len() as int);
}

proof fn lemma_sel_indices_increasing(sel: Seq<bool>, n: int)
    requires
        0 <= n <= sel.len(),
        sel.len() <= usize::MAX,
    ensures
        forall|i: int, j: int|
            0 <= i < j < sel_indices(sel, n).len() ==> #[trigger] sel_indices(sel, n)[i]
                < #[trigger] sel_indices(sel, n)[j],
    decreases n,
{
    if n > 0 {
        lemma_sel_indices_increasing(sel, n - 1);
        lemma_sel_indices(sel, n - 1);
        let p = sel_indices(sel, n - 1);
        if sel[n - 1] {
            assert forall|i: int, j: int|
                0 <= i < j < sel_indices(sel, n).len() implies #[trigger] sel_indices(sel, n)[i]
                    < #[trigger] sel_indices(sel, n)[j] by {
                assert(sel_indices(sel, n)[i] == p[i]);
                if j < p.len() {
                    assert(sel_indices(sel, n)[j] == p[j]);
                } else {
                    assert(p[i] < n - 1);
                }
            }
        }
    }
}


// ---------------------------------------------------------------------------------------------
// Rendering.

proof fn lemma_cmo_after_slot(x: Seq<char>, s: LetterSlot)
    requires
        slot_ok(s),
    ensures
        cmo_state(x + slot_text(s)) == (
            cmo_state(x).0 + flush(cmo_state(x).1, cmo_state(x).2, cmo_state(x).3) + seq![s.base],
            s.shadda,
            s.vowel,
            s.dagger_alif,
        ),
{
    let out = cmo_state(x).0 + flush(cmo_state(x).1, cmo_state(x).2, cmo_state(x).3) + seq![s.base];
    let y0 = x.push(s.base);
    assert(y0.drop_last() =~= x);
    assert(cmo_state(y0) == (out, false, None::<char>, false));
    let y1 = if s.shadda { y0.push(SHADDA) } else { y0 };
    if s.shadda {
        assert(y1.drop_last() =~= y0);
    }
    assert(cmo_state(y1) == (out, s.shadda, None::<char>, false));
    let y2 = match s.vowel {
        Some(v) => y1.push(v),
        None => y1,
    };
    if s.vowel is Some {
        assert(y2.drop_last() =~= y1);
    }
    assert(cmo_state(y2) == (out, s.shadda, s.vowel, false));
    let y3 = if s.dagger_alif { y2.push(SUPERSCRIPT_ALEF) } else { y2 };
    if s.dagger_alif {
        assert(y3.drop_last() =~= y2);
    }
    assert(cmo_state(y3) == (out, s.shadda, s.vowel, s.dagger_alif));
    assert(x + slot_text(s) =~= y3);
}

/// Reading a word into letters tracks the canonical mark ordering: the letters before the
/// last render to what the ordering has emitted up to the last letter, and the last letter
/// holds the marks the ordering still has pending.
proof fn lemma_slots_track_order(w: Seq<char>)
    requires
        w.len() > 0,
        !spec_is_mark(w[0]),
    ensures
        word_slots(w).len() > 0,
        render_slots(word_slots(w).drop_last()) + seq![word_slots(w).last().base] == cmo_state(w).0,
        word_slots(w).last().shadda == cmo_state(w).1,
        word_slots(w).last().vowel == cmo_state(w).2,
        word_slots(w).last().dagger_alif == cmo_state(w).3,
    decreases w.len(),
{
    let w0 = w.drop_last();
    let c = w.last();
    if w.len() == 1 {
        assert(w0 =~= Seq::<char>::empty());
        assert(word_slots(w) =~= seq![bare_slot(c)]);
        assert(word_slots(w).drop_last() =~= Seq::<LetterSlot>::empty());
        assert(flush(false, None, false) =~= Seq::<char>::empty());
        assert(cmo_state(w).0 =~= seq![c]);
    } else {
        assert(w0[0] == w[0]);
        lemma_slots_track_order(w0);
        let prev = word_slots(w0);
        if spec_is_mark(c) {
            let nl = prev.update(prev.len() - 1, add_mark(prev.last(), c));
            assert(word_slots(w) == nl);
            assert(nl.drop_last() =~= prev.drop_last());
        } else {
            let nl = prev.push(bare_slot(c));
            assert(word_slots(w) == nl);
            assert(nl.drop_last() =~= prev);
            assert(render_slots(prev) == render_slots(prev.drop_last()) + slot_text(prev.last()));
            assert(render_slots(prev) =~= cmo_state(w0).0 + flush(
                cmo_state(w0).1,
                cmo_state(w0).2,
                cmo_state(w0).3,
            ));
        }
    }
}

/// Loading a word into the editor and rendering it gives the word with its marks in canonical
/// order, so a word already in that order comes back unchanged (for a word that starts with a
/// letter; marks before the first letter have no letter to sit on).
pub proof fn law_load_then_render(m: EditorModel, w: Seq<char>)
    requires
        w.len() > 0,
        !spec_is_mark(w[0]),
    ensures
        render_slots(word_loaded(m, w).slots) == spec_canonical_mark_order(w),
        spec_canonical_mark_order(w) == w ==> render_slots(word_loaded(m, w).slots) == w,
{
    lemma_slots_track_order(w);
    let sl = word_slots(w);
    assert(load_slots(w) == sl);
    assert(render_slots(sl) == render_slots(sl.drop_last()) + slot_text(sl.last()));
    assert(render_slots(sl) =~= cmo_state(w).0 + flush(cmo_state(w).1, cmo_state(w).2, cmo_state(w).3));
}

/// What the editor renders is already in canonical mark order: shadda, then the vowel, then
/// superscript alef after each letter.
pub proof fn law_render_in_mark_order(slots: Seq<LetterSlot>)
    requires
        forall|i: int| 0 <= i < slots.len() ==> slot_ok(#[trigger] slots[i]),
    ensures
        spec_canonical_mark_order(render_slots(slots)) == render_slots(slots),
    decreases slots.len(),
{
    if slots.len() > 0 {
        let p = slots.drop_last();
        law_render_in_mark_order(p);
        lemma_cmo_after_slot(render_slots(p), slots.last());
        assert(render_slots(slots) == render_slots(p) + slot_text(slots.last()));
        assert(render_slots(slots) =~= render_slots(p) + seq![slots.last().base] + flush(
            slots.last().shadda,
            slots.last().vowel,
            slots.last().dagger_alif,
        ));
    }
}


// ---------------------------------------------------------------------------------------------
// Harakat from the typed vowels.

/// A letter of the vocalized candidate being built.
pub struct HSlot {
    pub letter: char,
    pub shadda: bool,
    pub vowel: Option<char>,
    /// May receive a vowel (consonant-like, not article, not a long-vowel letter).
    pub markable: bool,
    /// Written by a consonant rule (for sukun in Full mode).
    pub consonant: bool,
}

/// The letters of alphabet codes, skipping codes that name none.
pub open spec fn code_letters(codes: Seq<u8>) -> Seq<char>
    decreases codes.len(),
{
    if codes.len() == 0 {
        Seq::empty()
    } else {
        match spec_char_of(codes.last()) {
            Some(c) => code_letters(codes.drop_last()).push(c),
            None => code_letters(codes.drop_last()),
        }
    }
}

pub open spec fn is_long_vowel(c: char) -> bool {
    c == '\u{0627}' || c == '\u{0648}' || c == '\u{064A}'
}

pub open spec fn never_marked(c: char) -> bool {
    c == '\u{0627}' || c == '\u{0649}' || c == '\u{0629}'
}

/// A vowel written on its own carrier letter (initial a → أ / ع).
pub open spec fn is_carrier(c: char) -> bool {
    c == '\u{0623}' || c == '\u{0639}'
}

/// The short vowel a long-vowel letter implies on the consonant before it.
pub open spec fn long_vowel_mark(c: char) -> char {
    if c == '\u{0627}' {
        FATHA
    } else if c == '\u{0648}' {
        DAMMA
    } else {
        KASRA
    }
}

pub open spec fn plain_slot(c: char, vowel: Option<char>) -> HSlot {
    HSlot { letter: c, shadda: false, vowel, markable: false, consonant: false }
}

pub open spec fn set_vowel(slots: Seq<HSlot>, i: int, v: char) -> Seq<HSlot> {
    slots.update(i, HSlot { vowel: Some(v), ..slots[i] })
}

/// Letter `li` of a consonant step is part of the article اَل.
pub open spec fn in_article(letters: Seq<char>, li: int, article: bool) -> bool {
    article && li < 2 && letters.len() >= 2 && letters[0] == '\u{0627}' && letters[1] == '\u{0644}'
}

pub open spec fn consonant_slot(letters: Seq<char>, li: int, article: bool) -> HSlot {
    let m = !in_article(letters, li, article) && !never_marked(letters[li]);
    HSlot { letter: letters[li], shadda: false, vowel: None, markable: m, consonant: m }
}

/// The slots so far and the last consonant that may still take a vowel.
pub struct HState {
    pub slots: Seq<HSlot>,
    pub last_cons: Option<int>,
}

/// The state after one alignment step.
pub open spec fn harakat_step(
    st: HState,
    latin: Seq<char>,
    codes: Seq<u8>,
    flags: u8,
    marks: VowelMarks,
    d: Dialect,
    tanween: TanweenStyle,
) -> HState {
    let letters = code_letters(codes);
    if flags & F_VOWEL != 0 {
        if letters.len() == 0 {
            let slots = match (st.last_cons, marks.spec_vowel_mark(latin, d)) {
                (Some(i), Some(m)) => if st.slots[i].vowel is None {
                    set_vowel(st.slots, i, m)
                } else {
                    st.slots
                },
                _ => st.slots,
            };
            HState { slots, last_cons: None }
        } else if letters.len() == 1 && is_long_vowel(letters[0]) && st.last_cons is Some {
            let i = st.last_cons->0;
            let s1 = if st.slots[i].vowel is None {
                set_vowel(st.slots, i, long_vowel_mark(letters[0]))
            } else {
                st.slots
            };
            HState { slots: s1.push(plain_slot(letters[0], None)), last_cons: None }
        } else {
            let vm = marks.spec_vowel_mark(latin.take(1), d);
            HState {
                slots: st.slots + Seq::new(
                    letters.len(),
                    |j: int| plain_slot(letters[j], if is_carrier(letters[j]) { vm } else { None }),
                ),
                last_cons: None,
            }
        }
    } else {
        let article = flags & F_ARTICLE != 0;
        let s0 = st.slots + Seq::new(letters.len(), |li: int| consonant_slot(letters, li, article));
        if letters.len() == 0 {
            HState { slots: s0, last_cons: st.last_cons }
        } else {
            let last = s0.len() - 1;
            let s1 = if flags & F_GEM != 0 && s0[last].markable {
                s0.update(last, HSlot { shadda: true, ..s0[last] })
            } else {
                s0
            };
            let s2 = if flags & F_TANWEEN != 0 && s1[last].letter == '\u{0627}' && tanween
                != TanweenStyle::Off {
                if tanween == TanweenStyle::OnAlif {
                    set_vowel(s1, last, FATHATAN)
                } else if last > 0 {
                    set_vowel(s1, last - 1, FATHATAN)
                } else {
                    s1
                }
            } else {
                s1
            };
            HState {
                slots: s2,
                last_cons: if s2[last].markable {
                    Some(last)
                } else {
                    None
                },
            }
        }
    }
}

pub open spec fn harakat_upto(
    steps: Seq<Step>,
    k: int,
    marks: VowelMarks,
    d: Dialect,
    tanween: TanweenStyle,
) -> HState
    decreases k,
{
    if k <= 0 {
        HState { slots: Seq::empty(), last_cons: None }
    } else {
        let s = steps[k - 1];
        harakat_step(harakat_upto(steps, k - 1, marks, d, tanween), s.latin@, s.arabic@, s.flags, marks, d, tanween)
    }
}

/// Full mode: sukun on a consonant with no vowel that another consonant follows.
pub open spec fn with_sukun(slots: Seq<HSlot>) -> Seq<HSlot> {
    Seq::new(
        slots.len(),
        |i: int|
            if i + 1 < slots.len() && slots[i].consonant && slots[i].vowel is None && slots[i + 1].consonant {
                HSlot { vowel: Some(SUKUN), ..slots[i] }
            } else {
                slots[i]
            },
    )
}

/// A slot as text: the letter, shadda, then its vowel (fathatan only, on a bare alif).
pub open spec fn hslot_text(s: HSlot) -> Seq<char> {
    seq![s.letter] + (if s.shadda { seq![SHADDA] } else { Seq::empty() }) + (match s.vowel {
        Some(v) => if s.letter != '\u{0627}' || v == FATHATAN {
            seq![v]
        } else {
            Seq::empty()
        },
        None => Seq::empty(),
    })
}

pub open spec fn hslots_text(slots: Seq<HSlot>) -> Seq<char>
    decreases slots.len(),
{
    if slots.len() == 0 {
        Seq::empty()
    } else {
        hslots_text(slots.drop_last()) + hslot_text(slots.last())
    }
}

/// The vocalized string for an alignment; `None` if it writes no letter.
pub open spec fn spec_vowel_harakat(
    steps: Seq<Step>,
    marks: VowelMarks,
    d: Dialect,
    mode: HarakatMode,
    tanween: TanweenStyle,
) -> Option<Seq<char>> {
    let slots = harakat_upto(steps, steps.len() as int, marks, d, tanween).slots;
    if slots.len() == 0 {
        None
    } else if mode == HarakatMode::Full {
        Some(hslots_text(with_sukun(slots)))
    } else {
        Some(hslots_text(slots))
    }
}

/// The steps whose vowel is written on a carrier letter start with a one-byte Latin symbol.
pub open spec fn carrier_steps_ok(steps: Seq<Step>) -> bool {
    forall|k: int|
        0 <= k < steps.len() && #[trigger] steps[k].flags & F_VOWEL != 0 && !(code_letters(steps[k].arabic@).len() == 1
            && is_long_vowel(code_letters(steps[k].arabic@)[0])) && (exists|j: int|
            0 <= j < code_letters(steps[k].arabic@).len() && is_carrier(code_letters(steps[k].arabic@)[j]))
            ==> steps[k].latin@.len() >= 1 && (steps[k].latin@[0] as u32) < 0x80
}

/// The executable form of a slot.
#[derive(Clone, Copy)]
struct Slot {
    letter: char,
    shadda: bool,
    vowel: Option<char>,
    markable: bool,
    consonant: bool,
}

spec fn slot_view(s: Slot) -> HSlot {
    HSlot { letter: s.letter, shadda: s.shadda, vowel: s.vowel, markable: s.markable, consonant: s.consonant }
}

spec fn slots_view(v: Seq<Slot>) -> Seq<HSlot> {
    v.map_values(|s: Slot| slot_view(s))
}

fn letters_of(codes: &Vec<u8>) -> (r: Vec<char>)
    ensures
        r@ == code_letters(codes@),
{
    let mut r: Vec<char> = Vec::new();
    let mut i: usize = 0;
    while i < codes.len()
        invariant
            i <= codes@.len(),
            r@ == code_letters(codes@.take(i as int)),
        decreases codes@.len() - i,
    {
        assert(codes@.take(i + 1).drop_last() =~= codes@.take(i as int));
        if let Some(c) = char_of(codes[i]) {
            r.push(c);
        }
        i += 1;
    }
    assert(codes@.take(codes@.len() as int) =~= codes@);
    r
}

fn put_vowel_at(slots: &mut Vec<Slot>, i: usize, v: char)
    requires
        i < old(slots)@.len(),
    ensures
        slots_view(final(slots)@) == set_vowel(slots_view(old(slots)@), i as int, v),
        final(slots)@.len() == old(slots)@.len(),
{
    let s = slots[i];
    slots.set(i, Slot { letter: s.letter, shadda: s.shadda, vowel: Some(v), markable: s.markable, consonant: s.consonant });
    assert(slots_view(slots@) =~= set_vowel(slots_view(old(slots)@), i as int, v));
}

fn push_slot(slots: &mut Vec<Slot>, x: Slot)
    ensures
        slots_view(final(slots)@) == slots_view(old(slots)@).push(slot_view(x)),
        final(slots)@.len() == old(slots)@.len() + 1,
{
    slots.push(x);
    assert(slots_view(final(slots)@) =~= slots_view(old(slots)@).push(slot_view(x)));
}

fn sukun_pass(slots: &mut Vec<Slot>)
    requires
        old(slots)@.len() >= 1,
    ensures
        slots_view(final(slots)@) == with_sukun(slots_view(old(slots)@)),
        final(slots)@.len() == old(slots)@.len(),
{
    let ghost before = slots_view(slots@);
    let n = slots.len();
    let mut i: usize = 0;
    while i < n - 1
        invariant
            n >= 1,
            i <= n - 1,
            n == slots@.len(),
            before.len() == n,
            forall|t: int| 0 <= t < i ==> #[trigger] slots_view(slots@)[t] == with_sukun(before)[t],
            forall|t: int| i <= t < n ==> #[trigger] slots_view(slots@)[t] == before[t],
        decreases n - i,
    {
        let ghost prev = slots_view(slots@);
        assert(prev[i as int] == before[i as int]);
        assert(prev[i + 1] == before[i + 1]);
        if slots[i].consonant && slots[i].vowel.is_none() && slots[i + 1].consonant {
            put_vowel_at(slots, i, SUKUN);
        }
        let ghost cur = slots_view(slots@);
        assert forall|t: int| 0 <= t < i + 1 implies #[trigger] cur[t] == with_sukun(before)[t] by {
            if t < i {
                assert(cur[t] == prev[t]);
            }
        }
        assert forall|t: int| i + 1 <= t < n implies #[trigger] cur[t] == before[t] by {
            assert(cur[t] == prev[t]);
        }
        i += 1;
    }
    let ghost fin = slots_view(slots@);
    assert forall|t: int| 0 <= t < n implies #[trigger] fin[t] == with_sukun(before)[t] by {
        if t == n - 1 {
            assert(fin[t] == before[t]);
        }
    }
    assert(fin =~= with_sukun(before));
}

fn push_carriers(slots: &mut Vec<Slot>, letters: &Vec<char>, latin: &Vec<char>, marks: &VowelMarks, d: Dialect)
    requires
        (exists|t: int| 0 <= t < letters@.len() && is_carrier(letters@[t])) ==> latin@.len() >= 1 && (
        latin@[0] as u32) < 0x80,
    ensures
        slots_view(final(slots)@) == slots_view(old(slots)@) + Seq::new(
            letters@.len(),
            |t: int| plain_slot(letters@[t], if is_carrier(letters@[t]) { marks.spec_vowel_mark(latin@.take(1), d) } else { None }),
        ),
{
    let ghost before = slots_view(slots@);
    let ghost vm = marks.spec_vowel_mark(latin@.take(1), d);
    let mut j: usize = 0;
    while j < letters.len()
        invariant
            j <= letters@.len(),
            slots_view(slots@) =~= before + Seq::new(
                j as nat,
                |t: int| plain_slot(letters@[t], if is_carrier(letters@[t]) { vm } else { None }),
            ),
            (exists|t: int| 0 <= t < letters@.len() && is_carrier(letters@[t])) ==> latin@.len() >= 1,
            vm == marks.spec_vowel_mark(latin@.take(1), d),
        decreases letters@.len() - j,
    {
        let l = letters[j];
        let v = if l == '\u{0623}' || l == '\u{0639}' {
            assert(is_carrier(letters@[j as int]));
            let first = crate::text::string_of(vstd::slice::slice_subrange(latin.as_slice(), 0, 1));
            assert(first@ =~= latin@.take(1));
            marks.vowel_mark(first.as_str(), d)
        } else {
            None
        };
        let x = Slot { letter: l, shadda: false, vowel: v, markable: false, consonant: false };
        assert(slot_view(x) == plain_slot(letters@[j as int], if is_carrier(letters@[j as int]) { vm } else { None }));
        let ghost prev = slots_view(slots@);
        push_slot(slots, x);
        assert(before + Seq::new(
            (j + 1) as nat,
            |t: int| plain_slot(letters@[t], if is_carrier(letters@[t]) { vm } else { None }),
        ) =~= (before + Seq::new(
            j as nat,
            |t: int| plain_slot(letters@[t], if is_carrier(letters@[t]) { vm } else { None }),
        )).push(slot_view(x)));
        j += 1;
    }
}

fn push_consonants(slots: &mut Vec<Slot>, letters: &Vec<char>, article: bool)
    ensures
        slots_view(final(slots)@) == slots_view(old(slots)@) + Seq::new(
            letters@.len(),
            |t: int| consonant_slot(letters@, t, article),
        ),
        final(slots)@.len() == old(slots)@.len() + letters@.len(),
{
    let ghost before = slots_view(slots@);
    let ghost start = slots@.len();
    let mut li: usize = 0;
    while li < letters.len()
        invariant
            li <= letters@.len(),
            slots@.len() == start + li,
            slots_view(slots@) =~= before + Seq::new(li as nat, |t: int| consonant_slot(letters@, t, article)),
        decreases letters@.len() - li,
    {
        let l = letters[li];
        let in_art = article && li < 2 && letters.len() >= 2 && letters[0] == '\u{0627}' && letters[1] == '\u{0644}';
        let m = !in_art && !(l == '\u{0627}' || l == '\u{0649}' || l == '\u{0629}');
        let x = Slot { letter: l, shadda: false, vowel: None, markable: m, consonant: m };
        assert(slot_view(x) == consonant_slot(letters@, li as int, article));
        push_slot(slots, x);
        li += 1;
    }
}

/// Build the vocalized string for an alignment from the Latin vowels and doubled consonants the
/// user typed. Returns `None` if the alignment writes no letter.
pub fn vowel_harakat(
    steps: &[Step],
    marks: &VowelMarks,
    d: Dialect,
    mode: HarakatMode,
    tanween: TanweenStyle,
) -> (r: Option<String>)
    requires
        carrier_steps_ok(steps@),
    ensures
        match r {
            Some(s) => spec_vowel_harakat(steps@, *marks, d, mode, tanween) == Some(s@),
            None => spec_vowel_harakat(steps@, *marks, d, mode, tanween) is None,
        },
{
    let mut slots: Vec<Slot> = Vec::new();
    let mut last_cons: Option<usize> = None;
    let mut si: usize = 0;
    assert(slots_view(slots@) =~= Seq::<HSlot>::empty());
    while si < steps.len()
        invariant
            si <= steps@.len(),
            carrier_steps_ok(steps@),
            slots_view(slots@) == harakat_upto(steps@, si as int, *marks, d, tanween).slots,
            match last_cons {
                Some(i) => harakat_upto(steps@, si as int, *marks, d, tanween).last_cons == Some(i as int),
                None => harakat_upto(steps@, si as int, *marks, d, tanween).last_cons is None,
            },
            last_cons matches Some(i) ==> i < slots@.len(),
        decreases steps@.len() - si,
    {
        let step = &steps[si];
        let ghost st = harakat_upto(steps@, si as int, *marks, d, tanween);
        let ghost next = harakat_step(st, step.latin@, step.arabic@, step.flags, *marks, d, tanween);
        assert(harakat_upto(steps@, si + 1, *marks, d, tanween) == next);
        let letters = letters_of(&step.arabic);
        let latin = crate::text::string_of(step.latin.as_slice());
        if step.flags & F_VOWEL != 0 {
            if letters.len() == 0 {
                if let Some(i) = last_cons {
                    if let Some(m) = marks.vowel_mark(latin.as_str(), d) {
                        if slots[i].vowel.is_none() {
                            put_vowel_at(&mut slots, i, m);
                        }
                    }
                }
                assert(slots_view(slots@) == next.slots);
            } else if letters.len() == 1 && (letters[0] == '\u{0627}' || letters[0] == '\u{0648}'
                || letters[0] == '\u{064A}') && last_cons.is_some() {
                let i = last_cons.unwrap();
                if slots[i].vowel.is_none() {
                    let v = if letters[0] == '\u{0627}' {
                        FATHA
                    } else if letters[0] == '\u{0648}' {
                        DAMMA
                    } else {
                        KASRA
                    };
                    put_vowel_at(&mut slots, i, v);
                }
                let ghost before = slots_view(slots@);
                slots.push(Slot { letter: letters[0], shadda: false, vowel: None, markable: false, consonant: false });
                assert(slots_view(slots@) =~= before.push(plain_slot(letters@[0], None)));
                assert(slots_view(slots@) == next.slots);
            } else {
                // e.g. initial a → أ / ع: the vowel sits on its own carrier.
                proof {
                    assert(steps@[si as int] == *step);
                }
                push_carriers(&mut slots, &letters, &step.latin, marks, d);
                assert(slots_view(slots@) == next.slots);
            }
            last_cons = None;
        } else {
            // consonant / ending rule
            let article = step.flags & F_ARTICLE != 0;
            let start = slots.len();
            push_consonants(&mut slots, &letters, article);
            let ghost s0 = slots_view(slots@);
            if slots.len() > start {
                let last = slots.len() - 1;
                if step.flags & F_GEM != 0 && slots[last].markable {
                    let s = slots[last];
                    slots.set(last, Slot { letter: s.letter, shadda: true, vowel: s.vowel, markable: s.markable, consonant: s.consonant });
                    assert(slots_view(slots@) =~= s0.update(last as int, HSlot { shadda: true, ..s0[last as int] }));
                }
                let ghost s1 = slots_view(slots@);
                if step.flags & F_TANWEEN != 0 && slots[last].letter == '\u{0627}' && tanween != TanweenStyle::Off {
                    if tanween == TanweenStyle::OnAlif {
                        put_vowel_at(&mut slots, last, FATHATAN);
                    } else if last > 0 {
                        put_vowel_at(&mut slots, last - 1, FATHATAN);
                    }
                }
                assert(slots_view(slots@) == next.slots);
                last_cons = if slots[last].markable { Some(last) } else { None };
            } else {
                assert(slots_view(slots@) == next.slots);
            }
        }
        si += 1;
    }
    if slots.len() == 0 {
        return None;
    }
    let n = slots.len();
    if mode == HarakatMode::Full {
        sukun_pass(&mut slots);
    }
    let ghost fin = slots_view(slots@);
    let mut out = String::new();
    let mut k: usize = 0;
    while k < n
        invariant
            k <= n,
            n == slots@.len(),
            fin == slots_view(slots@),
            out@ == hslots_text(fin.take(k as int)),
        decreases n - k,
    {
        assert(fin.take(k + 1).drop_last() =~= fin.take(k as int));
        let s = slots[k];
        let ghost before = out@;
        push_char(&mut out, s.letter);
        if s.shadda {
            push_char(&mut out, SHADDA);
        }
        if let Some(v) = s.vowel {
            // fathatan on a bare alif is only valid as tanween
            if s.letter != '\u{0627}' || v == FATHATAN {
                push_char(&mut out, v);
            }
        }
        assert(out@ =~= before + hslot_text(fin[k as int]));
        k += 1;
    }
    assert(fin.take(n as int) =~= fin);
    Some(out)
}

/// Pick↑ and Pick↓ step through the picks in opposite directions, wrapping around: with a
/// highlighted pick `h` among `len`, Pick↓ highlights (`h` + 1) mod `len` and Pick↑
/// (`h` + `len` - 1) mod `len`, each loading that pick; Pick↑ then Pick↓ (or Pick↓ then Pick↑)
/// gives back the pick that was highlighted and its word.
pub proof fn law_pick_up_down(m: EditorModel, h: int)
    requires
        model_ok(m),
        m.picks.len() > 0,
        m.highlighted == Some(h),
    ensures
        spec_apply(m, TashkeelCmd::PickDown).0.highlighted == Some((h + 1) % (m.picks.len() as int)),
        spec_apply(m, TashkeelCmd::PickUp).0.highlighted == Some(
            (h + m.picks.len() - 1) % (m.picks.len() as int),
        ),
        spec_apply(spec_apply(m, TashkeelCmd::PickUp).0, TashkeelCmd::PickDown).0.highlighted == Some(h),
        spec_apply(spec_apply(m, TashkeelCmd::PickDown).0, TashkeelCmd::PickUp).0.highlighted == Some(h),
        spec_apply(spec_apply(m, TashkeelCmd::PickUp).0, TashkeelCmd::PickDown).0.slots == load_slots(m.picks[h]),
        spec_apply(m, TashkeelCmd::PickDown).0.slots == load_slots(
            m.picks[(h + 1) % (m.picks.len() as int)],
        ),
        spec_apply(m, TashkeelCmd::PickUp).0.slots == load_slots(
            m.picks[(h + m.picks.len() - 1) % (m.picks.len() as int)],
        ),
{
    let len = m.picks.len() as int;
    let up = if h == 0 { len - 1 } else { h - 1 };
    let down = if h == len - 1 { 0 } else { h + 1 };
    assert((h + len - 1) % len == up) by {
        if h == 0 {
            vstd::arithmetic::div_mod::lemma_small_mod((len - 1) as nat, len as nat);
        } else {
            vstd::arithmetic::div_mod::lemma_mod_add_multiples_vanish(h - 1, len);
            vstd::arithmetic::div_mod::lemma_small_mod((h - 1) as nat, len as nat);
        }
    }
    assert((h + 1) % len == down) by {
        if h == len - 1 {
            vstd::arithmetic::div_mod::lemma_mod_self_0(len);
        } else {
            vstd::arithmetic::div_mod::lemma_small_mod((h + 1) as nat, len as nat);
        }
    }
    assert((up + 1) % len == h) by {
        if h == 0 {
            vstd::arithmetic::div_mod::lemma_mod_self_0(len);
        } else {
            vstd::arithmetic::div_mod::lemma_small_mod(h as nat, len as nat);
        }
    }
    assert((down + len - 1) % len == h) by {
        if h == len - 1 {
            vstd::arithmetic::div_mod::lemma_small_mod((len - 1) as nat, len as nat);
        } else {
            vstd::arithmetic::div_mod::lemma_mod_add_multiples_vanish(h, len);
            vstd::arithmetic::div_mod::lemma_small_mod(h as nat, len as nat);
        }
    }
}

} // verus!
