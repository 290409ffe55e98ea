//! Counting the transactions that contain a candidate, and keeping the
//! candidates that enough transactions contain.
use crate::itemset::is_subset;
use crate::lemmas::lemma_filter_keeps_all;
use crate::model::{set_views, support};
use std::collections::HashSet;
use vstd::prelude::*;

verus! {

/// The number of transactions that contain every item of `candidate`.
pub fn support_count(candidate: &HashSet<i32>, transactions: &[HashSet<i32>]) -> (count: usize)
    ensures
        count == support(set_views(transactions@), candidate@),
{
    let ghost txs = set_views(transactions@);
    let ghost holds = |t: Set<i32>| candidate@.subset_of(t);
    let mut count: usize = 0;
    let mut i: usize = 0;
    while i < transactions.len()
        invariant
            i <= transactions.len(),
            txs == set_views(transactions@),
            holds == |t: Set<i32>| candidate@.subset_of(t),
            count == txs.take(i as int).filter(holds).len(),
            count <= i,
        decreases transactions.len() - i,
    {
        proof {
            let seen = txs.take(i as int);
            assert(txs.take(i + 1) =~= seen.push(txs[i as int]));
            seen.lemma_filter_push(txs[i as int], holds);
        }
        if is_subset(candidate, &transactions[i]) {
            count += 1;
        }
        i += 1;
    }
    assert(txs.take(i as int) =~= txs);
    count
}

/// The candidates whose support reaches `threshold`, in the order in which
/// they were given. A candidate whose support equals the threshold is kept.
pub fn count_and_filter(
    candidates: Vec<HashSet<i32>>,
    transactions: &[HashSet<i32>],
    threshold: usize,
) -> (kept: Vec<HashSet<i32>>)
    ensures
        set_views(kept@) == set_views(candidates@).filter(
            |s: Set<i32>| support(set_views(transactions@), s) >= threshold,
        ),
        threshold == 0 ==> set_views(kept@) == set_views(candidates@),
{
    let ghost all = set_views(candidates@);
    let ghost enough = |s: Set<i32>| support(set_views(transactions@), s) >= threshold;
    let mut kept: Vec<HashSet<i32>> = Vec::new();
    for candidate in it: candidates
        invariant
            all == set_views(it.seq()),
            enough == |s: Set<i32>| support(set_views(transactions@), s) >= threshold,
            set_views(kept@) == all.take(it.index()).filter(enough),
    {
        proof {
            let seen = all.take(it.index());
            assert(all.take(it.index() + 1) =~= seen.push(candidate@));
            seen.lemma_filter_push(candidate@, enough);
        }
        let count = support_count(&candidate, transactions);
        if count >= threshold {
            kept.push(candidate);
        }
    }
    assert(all.take(all.len() as int) =~= all);
    proof {
        if threshold == 0 {
            lemma_filter_keeps_all(all, enough);
        }
    }
    kept
}

} // verus!
