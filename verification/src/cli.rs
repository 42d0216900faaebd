//! Command-line arguments.
use vstd::prelude::*;
use crate::text::str_eq;

verus! {

/// The index of the first argument equal to `flag`.
pub open spec fn first_flag(args: Seq<String>, flag: Seq<char>, i: int) -> Option<int>
    decreases args.len() - i,
{
    if i >= args.len() {
        None
    } else if args[i]@ == flag {
        Some(i)
    } else {
        first_flag(args, flag, i + 1)
    }
}

/// The value after the first `flag`, as in `--dialect LEV`: none when the flag is missing or
/// last.
pub open spec fn spec_arg_value(args: Seq<String>, flag: Seq<char>) -> Option<Seq<char>> {
    match first_flag(args, flag, 0) {
        Some(i) => if i + 1 < args.len() {
            Some(args[i + 1]@)
        } else {
            None
        },
        None => None,
    }
}

pub fn arg_value(args: &Vec<String>, flag: &str) -> (r: Option<String>)
    ensures
        match r {
            Some(v) => spec_arg_value(args@, flag@) == Some(v@),
            None => spec_arg_value(args@, flag@) is None,
        },
{
    let mut i: usize = 0;
    while i < args.len()
        invariant
            i <= args@.len(),
            first_flag(args@, flag@, 0) == first_flag(args@, flag@, i as int),
        decreases args@.len() - i,
    {
        if str_eq(args[i].as_str(), flag) {
            if i + 1 < args.len() {
                return Some(args[i + 1].clone());
            }
            return None;
        }
        i += 1;
    }
    None
}

} // verus!
