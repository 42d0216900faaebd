//! The popup model: the only interface between the text service and the popup renderer.
use vstd::prelude::*;
use crate::arabic::{is_mark, spec_is_mark};
use crate::session::CandidateKind;
use crate::text::{chars_of, str_eq};

verus! {

/// Row marker shown at the left end of a row.
#[derive(Clone, Copy, Debug, PartialEq, Eq, Structural)]
pub enum RowMarker {
    /// No marker.
    Plain,
    Completion,
    Custom,
    RawLatin,
}

#[derive(Clone, Debug, PartialEq)]
pub struct Row {
    pub text: String,
    pub marker: RowMarker,
    /// Raw-Latin rows render LTR in the Latin font.
    pub rtl: bool,
}

#[derive(Clone, Copy, Debug, PartialEq, Eq, Structural)]
pub enum Footer {
    Hidden,
    Hints,
    Paging { page: u8, pages: u8 },
}

/// Candidate list state.
#[derive(Clone, Debug, PartialEq)]
pub struct ListModel {
    /// Latin buffer shown in the header (LTR).
    pub latin: String,
    /// Arabic dialect badge text, e.g. "شامي"; None hides the badge.
    pub badge: Option<String>,
    /// Rows of the visible page; the raw-Latin row is always last.
    pub rows: Vec<Row>,
    pub highlighted: usize,
    pub footer: Footer,
}

/// Tashkeel editor state.
#[derive(Clone, Debug, PartialEq)]
pub struct TashkeelModel {
    /// Quick picks (vocalized strings); `from_typing` marks the first one if vowel-derived.
    pub picks: Vec<String>,
    pub from_typing: bool,
    pub highlighted_pick: Option<usize>,
    /// The word being edited, with marks, in logical order.
    pub word: String,
    /// Index (in base letters, logical order) of the focused letter.
    pub focused_letter: usize,
    /// Selected letters (logical order); the focused letter is always among them.
    pub selected: Vec<usize>,
}

/// Mouse input on the popup, delivered to the text service's handler.
#[derive(Clone, Copy, Debug, PartialEq, Eq, Structural)]
pub enum PopupEvent {
    /// Click on visible candidate row `n` (0 = top row of the current page).
    Row(usize),
    /// Mouse wheel over the list: previous / next candidate.
    WheelUp,
    WheelDown,
    /// Click on letter `index` (logical order) in the tashkeel editor. `toggle` = Ctrl held,
    /// `range` = Shift held or a drag.
    Letter { index: usize, toggle: bool, range: bool },
    /// Click on palette cell `n` of the mark palette.
    Mark(usize),
    /// Click on the "clear all diacritics" button.
    ClearAll,
    /// Click on quick-pick chip `n`.
    Pick(usize),
}

#[derive(Clone, Debug, PartialEq)]
pub enum PopupModel {
    Hidden,
    List(ListModel),
    Tashkeel(TashkeelModel),
}

/// Theme tokens. Colors are 0xRRGGBB.
#[derive(Clone, Copy, Debug, PartialEq, Eq, Structural)]
pub struct Theme {
    pub bg: u32,
    pub border: u32,
    pub text: u32,
    pub secondary: u32,
    pub accent: u32,
}

impl Theme {
    pub fn light() -> (t: Theme)
        ensures
            t == (Theme { bg: 0xFFFFFF, border: 0xD0D0D0, text: 0x1A1A1A, secondary: 0x666666, accent: 0x0067C0 }),
    {
        Theme { bg: 0xFFFFFF, border: 0xD0D0D0, text: 0x1A1A1A, secondary: 0x666666, accent: 0x0067C0 }
    }

    pub fn dark() -> (t: Theme)
        ensures
            t == (Theme { bg: 0x2B2B2B, border: 0x3F3F3F, text: 0xF2F2F2, secondary: 0xA0A0A0, accent: 0x4CC2FF }),
    {
        Theme { bg: 0x2B2B2B, border: 0x3F3F3F, text: 0xF2F2F2, secondary: 0xA0A0A0, accent: 0x4CC2FF }
    }
}

/// Mark palette of the tashkeel editor, in RTL display order: the mark and its key.
pub const MARK_PALETTE_MARKS: [char; 10] = [
    '\u{064E}', '\u{064F}', '\u{0650}', '\u{0652}', '\u{0651}', '\u{064B}', '\u{064C}', '\u{064D}', '\u{0670}', '\u{2715}',
];

pub const MARK_PALETTE_KEYS: [char; 10] = ['a', 'u', 'i', 'o', 'w', 'A', 'U', 'I', '^', 'x'];

/// The end of the run of marks starting at `j`.
pub open spec fn marks_end(cs: Seq<char>, j: int) -> int
    decreases cs.len() - j,
{
    if j < cs.len() && spec_is_mark(cs[j]) {
        marks_end(cs, j + 1)
    } else {
        j
    }
}

/// The spans (letter index, index after its marks) from index `i` on.
pub open spec fn spans_from(cs: Seq<char>, i: int) -> Seq<(usize, usize)>
    decreases cs.len() - i,
{
    if i >= cs.len() || i < 0 {
        Seq::empty()
    } else {
        let e = marks_end(cs, i + 1);
        proof {
            lemma_marks_end(cs, i + 1);
        }
        if e <= i {
            Seq::empty()
        } else {
            seq![(i as usize, e as usize)] + spans_from(cs, e)
        }
    }
}

/// A run of marks ends inside the word, at or after where it starts.
pub proof fn lemma_marks_end(cs: Seq<char>, j: int)
    requires
        0 <= j,
    ensures
        j <= marks_end(cs, j),
        j <= cs.len() ==> marks_end(cs, j) <= cs.len(),
    decreases cs.len() - j,
{
    if j < cs.len() && spec_is_mark(cs[j]) {
        lemma_marks_end(cs, j + 1);
    }
}

/// Letter spans of an Arabic word with marks: (char index of the letter, char index after its
/// marks).
pub fn letter_spans(word: &str) -> (r: Vec<(usize, usize)>)
    ensures
        r@ == spans_from(word@, 0),
{
    let cs = chars_of(word);
    let n = cs.len();
    let mut spans: Vec<(usize, usize)> = Vec::new();
    let mut i: usize = 0;
    while i < n
        invariant
            i <= n,
            n == cs@.len(),
            cs@ == word@,
            spans@ + spans_from(cs@, i as int) == spans_from(cs@, 0),
        decreases n - i,
    {
        let start = i;
        i += 1;
        while i < n && is_mark(cs[i])
            invariant
                start < i <= n,
                n == cs@.len(),
                marks_end(cs@, start + 1) == marks_end(cs@, i as int),
            decreases n - i,
        {
            i += 1;
        }
        proof {
            lemma_marks_end(cs@, start + 1);
        }
        let ghost before = spans@;
        spans.push((start, i));
        assert(spans@ + spans_from(cs@, i as int) =~= before + spans_from(cs@, start as int));
    }
    assert(spans_from(cs@, n as int) =~= Seq::<(usize, usize)>::empty());
    assert(spans@ + spans_from(cs@, n as int) =~= spans@);
    spans
}

// ---------------------------------------------------------------------------------------------
// The visible page of the candidate list.

/// Candidates per page: the configured number, kept within 5..=9.
pub open spec fn page_size(candidates_per_page: i64) -> int {
    if candidates_per_page < 5 {
        5
    } else if candidates_per_page > 9 {
        9
    } else {
        candidates_per_page as int
    }
}

/// The number of pages for `total` candidates, `ps` per page (at least one).
pub open spec fn page_count(total: int, ps: int) -> int {
    let p = total / ps + if total % ps != 0 { 1int } else { 0int };
    if p < 1 {
        1
    } else {
        p
    }
}

/// The page shown and the candidates on it: `start..end` of the list.
#[derive(Clone, Copy, Debug, PartialEq, Eq, Structural)]
pub struct ListPage {
    pub page: usize,
    pub pages: usize,
    pub start: usize,
    pub end: usize,
}

pub open spec fn spec_list_page(total: int, candidates_per_page: i64, page: int) -> (int, int, int, int) {
    let ps = page_size(candidates_per_page);
    let pages = page_count(total, ps);
    let p = if page < pages - 1 { page } else { pages - 1 };
    let start = p * ps;
    let end = if start + ps < total { start + ps } else { total };
    (p, pages, start, end)
}

proof fn lemma_last_page_start(total: int, ps: int, p: int)
    by (nonlinear_arith)
    requires
        5 <= ps <= 9,
        total >= 0,
        0 <= p <= page_count(total, ps) - 1,
    ensures
        p * ps <= total,
        total > 0 ==> p * ps < total,
        p * ps >= 0,
{
    let q = total / ps;
    let r = total % ps;
    assert(total == q * ps + r);
    assert(p * ps <= (page_count(total, ps) - 1) * ps);
}

/// The page of a list of `total` candidates that shows: the requested page, or the last one
/// when the list is shorter.
pub fn list_page(total: usize, candidates_per_page: i64, page: usize) -> (r: ListPage)
    ensures
        (r.page as int, r.pages as int, r.start as int, r.end as int) == spec_list_page(
            total as int,
            candidates_per_page,
            page as int,
        ),
{
    let ps: usize = if candidates_per_page < 5 {
        5
    } else if candidates_per_page > 9 {
        9
    } else {
        candidates_per_page as usize
    };
    let q = total / ps;
    assert(q < usize::MAX) by (nonlinear_arith)
        requires
            ps >= 5,
            q == total / ps,
            total <= usize::MAX,
    ;
    let pages0 = if total % ps != 0 { q + 1 } else { q };
    let pages = if pages0 < 1 { 1 } else { pages0 };
    assert(pages == page_count(total as int, ps as int));
    let p = if page < pages - 1 { page } else { pages - 1 };
    proof {
        lemma_last_page_start(total as int, ps as int, p as int);
    }
    let start = p * ps;
    let end = if total - start > ps { start + ps } else { total };
    ListPage { page: p, pages, start, end }
}

/// The page shown is a real page, and shows between one and a page's worth of candidates (none
/// only for an empty list).
pub proof fn law_list_page_bounds(total: nat, candidates_per_page: i64, page: nat)
    ensures
        ({
            let (p, pages, start, end) = spec_list_page(total as int, candidates_per_page, page as int);
            &&& 0 <= p < pages
            &&& 0 <= start <= end <= total
            &&& end - start <= page_size(candidates_per_page)
            &&& total > 0 ==> start < end
        }),
{
    let ps = page_size(candidates_per_page);
    let pages = page_count(total as int, ps);
    let p = if page < pages - 1 { page as int } else { pages - 1 };
    lemma_last_page_start(total as int, ps, p);
}

/// Every candidate is on a page: candidate `i` shows on page `i / page size`.
pub proof fn law_every_candidate_on_a_page(total: int, candidates_per_page: i64, i: int)
    requires
        0 <= i < total,
    ensures
        ({
            let ps = page_size(candidates_per_page);
            let (p, pages, start, end) = spec_list_page(total, candidates_per_page, i / ps);
            p == i / ps && start <= i < end
        }),
{
    let ps = page_size(candidates_per_page);
    let q = total / ps;
    let r = total % ps;
    let p = i / ps;
    assert(p * ps <= i < p * ps + ps) by (nonlinear_arith)
        requires
            ps >= 5,
            p == i / ps,
            i >= 0,
    ;
    assert(p <= q + (if r != 0 { 1int } else { 0int }) - 1) by (nonlinear_arith)
        requires
            ps >= 5,
            p == i / ps,
            q == total / ps,
            r == total % ps,
            0 <= i < total,
    ;
}

/// The marker shown beside a candidate of kind `kind`.
pub open spec fn spec_row_marker(kind: CandidateKind) -> RowMarker {
    match kind {
        CandidateKind::Completion => RowMarker::Completion,
        CandidateKind::Custom => RowMarker::Custom,
        CandidateKind::RawLatin => RowMarker::RawLatin,
        _ => RowMarker::Plain,
    }
}

pub fn row_marker(kind: CandidateKind) -> (r: RowMarker)
    ensures
        r == spec_row_marker(kind),
{
    match kind {
        CandidateKind::Completion => RowMarker::Completion,
        CandidateKind::Custom => RowMarker::Custom,
        CandidateKind::RawLatin => RowMarker::RawLatin,
        _ => RowMarker::Plain,
    }
}

/// The footer under the list: the page numbers when there are several pages, else the key
/// hints unless they are set to `never`.
pub open spec fn spec_list_footer(page: int, pages: int, footer_hints: Seq<char>) -> Footer {
    if pages > 1 {
        Footer::Paging {
            page: (if page + 1 < 255 { page + 1 } else { 255 }) as u8,
            pages: (if pages < 255 { pages } else { 255 }) as u8,
        }
    } else if footer_hints == "never"@ {
        Footer::Hidden
    } else {
        Footer::Hints
    }
}

pub fn list_footer(page: usize, pages: usize, footer_hints: &str) -> (r: Footer)
    ensures
        r == spec_list_footer(page as int, pages as int, footer_hints@),
{
    if pages > 1 {
        let shown: usize = if page < 254 { page + 1 } else { 255 };
        let count: usize = if pages < 255 { pages } else { 255 };
        Footer::Paging { page: shown as u8, pages: count as u8 }
    } else if str_eq(footer_hints, "never") {
        Footer::Hidden
    } else {
        Footer::Hints
    }
}

/// The text shown inline while composing: the diacritics editor's word when it is open; else
/// the Latin as typed when the preview is set to `latin`; else the selected candidate (or the
/// first, or the Latin when the list is empty).
pub open spec fn spec_preview_text(
    editor_word: Option<Seq<char>>,
    inline_preview: Seq<char>,
    raw: Seq<char>,
    texts: Seq<Seq<char>>,
    selected: int,
) -> Seq<char> {
    match editor_word {
        Some(w) => w,
        None => if inline_preview == "latin"@ {
            raw
        } else if 0 <= selected < texts.len() {
            texts[selected]
        } else if texts.len() > 0 {
            texts[0]
        } else {
            raw
        },
    }
}

pub fn preview_text(
    editor_word: Option<String>,
    inline_preview: &str,
    raw: String,
    texts: &Vec<String>,
    selected: usize,
) -> (r: String)
    ensures
        r@ == spec_preview_text(
            match editor_word {
                Some(w) => Some(w@),
                None => None,
            },
            inline_preview@,
            raw@,
            texts@.map_values(|t: String| t@),
            selected as int,
        ),
{
    if let Some(w) = editor_word {
        return w;
    }
    if str_eq(inline_preview, "latin") {
        return raw;
    }
    if selected < texts.len() {
        texts[selected].clone()
    } else if texts.len() > 0 {
        texts[0].clone()
    } else {
        raw
    }
}

} // verus!
