//! Executable helpers on single itemsets.
use std::collections::HashSet;
use vstd::prelude::*;

verus! {

/// Whether every item of `a` is also in `b`.
pub fn is_subset(a: &HashSet<i32>, b: &HashSet<i32>) -> (r: bool)
    ensures
        r == a@.subset_of(b@),
{
    for x in it: a.iter()
        invariant
            it.seq().unref().to_set() == a@,
            forall|k: int| 0 <= k < it.index() ==> b@.contains(*#[trigger] it.seq()[k]),
    {
        if !b.contains(x) {
            return false;
        }
    }
    true
}

} // verus!
