//! What holds of mining whatever the transactions and the threshold are.
//!
//! [`crate::miner::apriori`] returns the itemsets of
//! [`mined`](crate::model::mined), each once; the laws below are stated of
//! that set.
use crate::model::{frequent, mined, several, subsets_of_size, support, universe};
use vstd::prelude::*;

verus! {

/// The universe of finitely many finite transactions is finite.
pub proof fn lemma_universe_finite(txs: Seq<Set<i32>>)
    requires
        forall|i: int| 0 <= i < txs.len() ==> (#[trigger] txs[i]).finite(),
    ensures
        universe(txs).finite(),
    decreases txs.len(),
{
    if txs.len() == 0 {
        assert(universe(txs) =~= Set::empty());
    } else {
        let rest = txs.drop_last();
        lemma_universe_finite(rest);
        assert(universe(txs) =~= universe(rest).union(txs.last())) by {
            assert forall|x: i32| universe(txs).contains(x) implies universe(rest).union(
                txs.last(),
            ).contains(x) by {
                let i = choose|i: int| 0 <= i < txs.len() && #[trigger] txs[i].contains(x);
                if i < rest.len() {
                    assert(rest[i].contains(x));
                }
            }
        }
    }
}

/// A finite set with at least `k` items has a subset of exactly `k` items.
proof fn lemma_subset_of_size(s: Set<i32>, k: nat) -> (r: Set<i32>)
    requires
        s.finite(),
        k <= s.len(),
    ensures
        subsets_of_size(s, k).contains(r),
    decreases s.len(),
{
    if s.len() == k {
        s
    } else {
        let x = s.choose();
        lemma_subset_of_size(s.remove(x), k)
    }
}

/// A finite set with more than `k` items, `k` at least one, has two
/// different subsets of exactly `k` items.
proof fn lemma_two_subsets(s: Set<i32>, k: nat) -> (r: (Set<i32>, Set<i32>))
    requires
        s.finite(),
        1 <= k < s.len(),
    ensures
        subsets_of_size(s, k).contains(r.0),
        subsets_of_size(s, k).contains(r.1),
        r.0 != r.1,
{
    let a = lemma_subset_of_size(s, k);
    let y = a.choose();
    if s.subset_of(a) {
        vstd::set_lib::lemma_len_subset(s, a);
    }
    let x = choose|x: i32| s.contains(x) && !a.contains(x);
    let b = a.remove(y).insert(x);
    (a, b)
}

/// An itemset is contained in no more transactions than any of its subsets.
pub proof fn lemma_support_antimonotone(txs: Seq<Set<i32>>, a: Set<i32>, s: Set<i32>)
    requires
        a.subset_of(s),
    ensures
        support(txs, s) <= support(txs, a),
    decreases txs.len(),
{
    reveal(Seq::filter);
    if txs.len() > 0 {
        lemma_support_antimonotone(txs.drop_last(), a, s);
    }
}

/// Repeating a run changes nothing: two results for the same transactions
/// and threshold hold the same itemsets, and equally many of them.
pub proof fn lemma_mining_repeatable(
    txs: Seq<Set<i32>>,
    t: nat,
    first: Seq<Set<i32>>,
    second: Seq<Set<i32>>,
)
    requires
        first.no_duplicates(),
        first.to_set() == mined(txs, t),
        second.no_duplicates(),
        second.to_set() == mined(txs, t),
    ensures
        first.to_set() == second.to_set(),
        first.len() == second.len(),
{
    first.unique_seq_to_set();
    second.unique_seq_to_set();
}

/// Raising the threshold never adds an itemset: what is mined at the higher
/// threshold is mined at the lower one too.
pub proof fn lemma_threshold_monotone(txs: Seq<Set<i32>>, low: nat, high: nat)
    requires
        low <= high,
    ensures
        mined(txs, high).subset_of(mined(txs, low)),
{
    assert forall|s: Set<i32>| mined(txs, high).contains(s) implies mined(txs, low).contains(
        s,
    ) by {
        assert forall|m: nat| 2 <= m < s.len() implies several(#[trigger] frequent(txs, low, m)) by {
            let (a, b) = choose|a: Set<i32>, b: Set<i32>|
                frequent(txs, high, m).contains(a) && frequent(txs, high, m).contains(b) && a != b;
            assert(frequent(txs, low, m).contains(a) && frequent(txs, low, m).contains(b));
        }
    }
}

/// Every mined itemset is a finite set of items of the universe, with at
/// least two items and no more than the universe has.
pub proof fn lemma_mined_sizes(txs: Seq<Set<i32>>, t: nat, s: Set<i32>)
    requires
        forall|i: int| 0 <= i < txs.len() ==> (#[trigger] txs[i]).finite(),
        mined(txs, t).contains(s),
    ensures
        s.finite(),
        s.subset_of(universe(txs)),
        2 <= s.len() <= universe(txs).len(),
{
    lemma_universe_finite(txs);
    vstd::set_lib::lemma_len_subset(s, universe(txs));
}

/// Every mined itemset is contained in at least `t` transactions.
pub proof fn lemma_mined_support(txs: Seq<Set<i32>>, t: nat, s: Set<i32>)
    requires
        mined(txs, t).contains(s),
    ensures
        support(txs, s) >= t,
{
}

/// With no transactions nothing is mined, whatever the threshold.
pub proof fn lemma_empty_input(t: nat)
    ensures
        mined(Seq::<Set<i32>>::empty(), t) == Set::<Set<i32>>::empty(),
{
    let txs = Seq::<Set<i32>>::empty();
    assert forall|s: Set<i32>| !mined(txs, t).contains(s) by {
        if s.finite() && s.subset_of(universe(txs)) {
            assert(s =~= Set::empty());
        }
    }
}

/// Stopping at the first round that finds at most one frequent itemset
/// loses nothing: every frequent itemset of two or more items is mined.
pub proof fn lemma_every_frequent_itemset_mined(txs: Seq<Set<i32>>, t: nat)
    ensures
        mined(txs, t) == Set::new(
            |s: Set<i32>| s.len() >= 2 && frequent(txs, t, s.len()).contains(s),
        ),
{
    let all = Set::new(|s: Set<i32>| s.len() >= 2 && frequent(txs, t, s.len()).contains(s));
    assert forall|s: Set<i32>| all.contains(s) implies mined(txs, t).contains(s) by {
        assert forall|m: nat| 2 <= m < s.len() implies several(#[trigger] frequent(txs, t, m)) by {
            let (a, b) = lemma_two_subsets(s, m);
            lemma_support_antimonotone(txs, a, s);
            lemma_support_antimonotone(txs, b, s);
            assert(frequent(txs, t, m).contains(a) && frequent(txs, t, m).contains(b));
        }
    }
}

/// At threshold zero every itemset of two or more items of the universe is
/// mined: each round keeps all of its candidates, and the rounds go on up
/// to the size of the universe.
pub proof fn lemma_zero_threshold(txs: Seq<Set<i32>>)
    ensures
        mined(txs, 0) == Set::new(
            |s: Set<i32>| s.finite() && s.subset_of(universe(txs)) && s.len() >= 2,
        ),
{
    lemma_every_frequent_itemset_mined(txs, 0);
}

/// A threshold above the number of transactions is out of reach: nothing
/// is mined.
pub proof fn lemma_threshold_out_of_reach(txs: Seq<Set<i32>>, t: nat)
    requires
        t > txs.len(),
    ensures
        mined(txs, t) == Set::<Set<i32>>::empty(),
{
    assert forall|s: Set<i32>| !mined(txs, t).contains(s) by {
        txs.lemma_filter_len(|x: Set<i32>| s.subset_of(x));
    }
}

} // verus!
