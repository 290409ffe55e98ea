//! The mathematical model: transactions as a sequence of sets, and what it
//! means for an itemset to be frequent and to be mined.
use std::collections::HashSet;
use vstd::prelude::*;

verus! {

/// The sets held by a sequence of hash sets, in the same order.
pub open spec fn set_views(sets: Seq<HashSet<i32>>) -> Seq<Set<i32>> {
    sets.map_values(|s: HashSet<i32>| s@)
}

/// Every item that occurs in at least one transaction.
pub open spec fn universe(txs: Seq<Set<i32>>) -> Set<i32> {
    Set::new(|x: i32| exists|i: int| 0 <= i < txs.len() && #[trigger] txs[i].contains(x))
}

/// The number of transactions that contain every item of `s`.
pub open spec fn support(txs: Seq<Set<i32>>, s: Set<i32>) -> nat {
    txs.filter(|t: Set<i32>| s.subset_of(t)).len()
}

/// All subsets of `u` that have exactly `n` items.
pub open spec fn subsets_of_size(u: Set<i32>, n: nat) -> Set<Set<i32>> {
    Set::new(|s: Set<i32>| s.finite() && s.subset_of(u) && s.len() == n)
}

/// The itemsets of `n` items, drawn from the universe, whose support reaches
/// the threshold `t`.
pub open spec fn frequent(txs: Seq<Set<i32>>, t: nat, n: nat) -> Set<Set<i32>> {
    Set::new(
        |s: Set<i32>| subsets_of_size(universe(txs), n).contains(s) && support(txs, s) >= t,
    )
}

/// `sets` has more than one member.
pub open spec fn several(sets: Set<Set<i32>>) -> bool {
    exists|a: Set<i32>, b: Set<i32>| sets.contains(a) && sets.contains(b) && a != b
}

/// The itemsets that mining returns. Rounds run for sizes 2, 3, ... and the
/// first round that finds at most one frequent itemset is the last; so an
/// itemset is mined when it is frequent, has at least two items, and every
/// earlier round found several frequent itemsets.
pub open spec fn mined(txs: Seq<Set<i32>>, t: nat) -> Set<Set<i32>> {
    Set::new(
        |s: Set<i32>|
            {
                &&& s.len() >= 2
                &&& frequent(txs, t, s.len()).contains(s)
                &&& forall|m: nat| 2 <= m < s.len() ==> several(#[trigger] frequent(txs, t, m))
            },
    )
}

} // verus!
