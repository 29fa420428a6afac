//! Counts that stop at the largest number instead of running over.

use vstd::prelude::*;

verus! {

/// A count that stops at what can be counted.
pub open spec fn counted(n: int) -> int {
    if n > usize::MAX {
        usize::MAX as int
    } else {
        n
    }
}

/// One more.
pub fn bump(count: &mut usize)
    ensures
        *final(count) == counted(*old(count) + 1),
{
    if *count < usize::MAX {
        *count = *count + 1;
    }
}

} // verus!
