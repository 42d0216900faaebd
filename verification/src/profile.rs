//! The keyboard profile of the signed-in user: whether Type3arabi is one of their keyboards,
//! which saved inputs enabling it keeps, and what becomes of each Arabic layout loaded in the
//! session. (Reading the input lists and changing them is the installer helper's.)
use vstd::prelude::*;
use crate::dialect::{chars_eq_ignore_case, eq_ignore_case};
use crate::text::chars_of;

verus! {

/// The one language Type3arabi registers under.
pub const LANG: &'static str = "ar-SA";

/// Type3arabi's input, named as the input lists name it.
pub const TIP: &'static str = "0401:{8A4B9277-1E2E-45E0-92A2-83FED833D8BF}{90D49398-54D3-4F08-9C15-0B38D0820A87}";

/// The list names `item`, up to ASCII case.
pub open spec fn names(list: Seq<String>, item: Seq<char>) -> bool {
    exists|i: int| 0 <= i < list.len() && #[trigger] eq_ignore_case(list[i]@, item)
}

pub fn names_entry(list: &Vec<String>, item: &str) -> (r: bool)
    ensures
        r == names(list@, item@),
{
    let want = chars_of(item);
    let mut i: usize = 0;
    while i < list.len()
        invariant
            i <= list@.len(),
            want@ == item@,
            forall|j: int| 0 <= j < i ==> !#[trigger] eq_ignore_case(list@[j]@, item@),
        decreases list@.len() - i,
    {
        let have = chars_of(list[i].as_str());
        if chars_eq_ignore_case(have.as_slice(), want.as_slice()) {
            return true;
        }
        i += 1;
    }
    false
}

/// Type3arabi is one of the user's keyboards: their saved input list names it.
pub fn is_enabled(saved: &Vec<String>) -> (r: bool)
    ensures
        r == names(saved@, TIP@),
{
    names_entry(saved, TIP)
}

/// The saved inputs that enabling Type3arabi keeps: what the user had chosen for Arabic when
/// Arabic was one of their languages, else none (a layout merely loaded is no choice).
pub fn kept_on_enable(languages: &Vec<String>, saved: Vec<String>) -> (r: Vec<String>)
    ensures
        r@ == if names(languages@, LANG@) {
            saved@
        } else {
            Seq::<String>::empty()
        },
{
    if names_entry(languages, LANG) {
        saved
    } else {
        Vec::new()
    }
}

/// What becomes of an Arabic layout loaded in the session.
#[derive(Clone, Copy, Debug, PartialEq, Eq, Structural)]
pub enum LayoutFate {
    /// The user chose it: it stays.
    Keep,
    /// Loaded without being chosen: it is unloaded from the session.
    Unload,
    /// It came into the saved list with Type3arabi: it is removed from the list, then unloaded.
    RemoveAndUnload,
}

pub open spec fn spec_layout_fate(stray: bool, layout: Seq<char>, saved: Seq<String>) -> LayoutFate {
    if !stray {
        LayoutFate::Keep
    } else if names(saved, layout) {
        LayoutFate::RemoveAndUnload
    } else {
        LayoutFate::Unload
    }
}

/// The fate of a loaded Arabic layout; `stray` tells whether it is one the user did not keep.
pub fn layout_fate(stray: bool, layout: &str, saved: &Vec<String>) -> (r: LayoutFate)
    ensures
        r == spec_layout_fate(stray, layout@, saved@),
{
    if !stray {
        LayoutFate::Keep
    } else if names_entry(saved, layout) {
        LayoutFate::RemoveAndUnload
    } else {
        LayoutFate::Unload
    }
}

/// The exit status of the profile commands: 0 once the change is made, else 1.
pub fn exit_status(done: bool) -> (r: i32)
    ensures
        r == if done { 0i32 } else { 1i32 },
{
    if done {
        0
    } else {
        1
    }
}

} // verus!
