//! The mining loop: round after round of candidates, each one item larger,
//! until a round leaves at most one frequent itemset.
use crate::combinations::gen_combinations;
use crate::laws::lemma_empty_input;
use crate::lemmas::{lemma_filter_members, lemma_hash_set_finite, lemma_two_subsets_leave_room};
use crate::model::{frequent, mined, set_views, several, support, universe};
use crate::support::count_and_filter;
use std::collections::HashSet;
use vstd::prelude::*;
use vstd::std_specs::iter::IteratorSpec;

verus! {

/// Every item that occurs in some transaction.
pub fn item_universe(transactions: &[HashSet<i32>]) -> (items: HashSet<i32>)
    ensures
        items@ == universe(set_views(transactions@)),
{
    let ghost txs = set_views(transactions@);
    let mut items: HashSet<i32> = HashSet::new();
    let mut i: usize = 0;
    while i < transactions.len()
        invariant
            i <= transactions.len(),
            txs == set_views(transactions@),
            items@ == universe(txs.take(i as int)),
        decreases transactions.len() - i,
    {
        let transaction = &transactions[i];
        let ghost seen = items@;
        let ghost all: Seq<&i32> = transaction.iter().remaining();
        for x in it: transaction.iter()
            invariant
                it.seq() == all,
                all.unref().to_set() == transaction@,
                items@ == seen.union(all.take(it.index()).unref().to_set()),
        {
            items.insert(*x);
            assert(items@ =~= seen.union(all.take(it.index() + 1).unref().to_set())) by {
                let before = all.take(it.index()).unref();
                let after = all.take(it.index() + 1).unref();
                assert(after =~= before.push(*x));
                assert forall|y: i32| before.contains(y) implies after.contains(y) by {
                    let a = choose|a: int| 0 <= a < before.len() && before[a] == y;
                    assert(after[a] == y);
                }
                assert(after[before.len() as int] == *x);
            }
        }
        i += 1;
        proof {
            assert(all.take(all.len() as int) =~= all);
            let grown = universe(txs.take(i as int));
            assert forall|y: i32| items@.contains(y) implies grown.contains(y) by {
                if !seen.contains(y) {
                    assert(txs.take(i as int)[i - 1].contains(y));
                }
            }
        }
    }
    assert(txs.take(i as int) =~= txs);
    items
}

/// The frequent itemsets of two or more items.
///
/// Rounds run for itemset sizes 2, 3, and so on. Each round takes every
/// itemset of its size over the universe of items, keeps those that at
/// least `support_threshold` transactions contain, and adds them to the
/// result. The first round that keeps at most one itemset is the last.
///
/// The result lists each mined itemset once, round by round, so from the
/// smaller to the larger; within one size the order is not determined.
pub fn apriori(itemsets: &[HashSet<i32>], support_threshold: usize) -> (associations: Vec<
    HashSet<i32>,
>)
    ensures
        set_views(associations@).no_duplicates(),
        set_views(associations@).to_set() == mined(
            set_views(itemsets@),
            support_threshold as nat,
        ),
        forall|i: int, j: int|
            0 <= i <= j < associations.len() ==> associations[i]@.len() <= associations[j]@.len(),
        forall|i: int|
            0 <= i < associations.len() ==> {
                let s = (#[trigger] associations[i])@;
                &&& s.finite()
                &&& s.subset_of(universe(set_views(itemsets@)))
                &&& 2 <= s.len() <= universe(set_views(itemsets@)).len()
                &&& support(set_views(itemsets@), s) >= support_threshold
            },
        itemsets@.len() == 0 ==> associations@.len() == 0,
{
    let ghost txs = set_views(itemsets@);
    let ghost t = support_threshold as nat;
    let items = item_universe(itemsets);
    proof {
        lemma_hash_set_finite(&items);
    }
    let mut n: usize = 2;
    let mut associations: Vec<HashSet<i32>> = Vec::new();
    loop
        invariant_except_break
            forall|s: Set<i32>| #[trigger]
                set_views(associations@).contains(s) <==> mined(txs, t).contains(s) && s.len() < n,
        invariant
            txs == set_views(itemsets@),
            t == support_threshold as nat,
            items@ == universe(txs),
            items@.finite(),
            2 <= n,
            forall|m: nat| 2 <= m < n ==> several(#[trigger] frequent(txs, t, m)),
            set_views(associations@).no_duplicates(),
            forall|i: int, j: int|
                0 <= i <= j < associations.len() ==> associations[i]@.len()
                    <= associations[j]@.len(),
            forall|i: int| 0 <= i < associations.len() ==> (#[trigger] associations[i])@.len() <= n,
        ensures
            forall|s: Set<i32>| #[trigger]
                set_views(associations@).contains(s) <==> mined(txs, t).contains(s),
        decreases items@.len() - n,
    {
        let candidates = gen_combinations(&items, n);
        let ghost offered = set_views(candidates@);
        let mut survivors = count_and_filter(candidates, itemsets, support_threshold);
        let found = survivors.len();
        let ghost kept = set_views(survivors@);
        let ghost earlier = set_views(associations@);
        proof {
            lemma_filter_members(offered, |s: Set<i32>| support(txs, s) >= support_threshold);
            assert(forall|s: Set<i32>| #[trigger]
                kept.contains(s) <==> frequent(txs, t, n as nat).contains(s));
            assert forall|i: int| 0 <= i < kept.len() implies (#[trigger] survivors[i])@.len()
                == n by {
                assert(kept.contains(kept[i]));
            }
            assert forall|i: int| 0 <= i < earlier.len() implies (#[trigger] earlier[i]).len()
                < n by {
                assert(earlier.contains(earlier[i]));
            }
        }
        if found > 0 {
            associations.append(&mut survivors);
        }
        let ghost gathered = set_views(associations@);
        proof {
            assert(gathered =~= earlier + kept);
            assert forall|s: Set<i32>| #[trigger]
                gathered.contains(s) <==> mined(txs, t).contains(s) && s.len() <= n by {
                if gathered.contains(s) {
                    let i = choose|i: int| 0 <= i < gathered.len() && gathered[i] == s;
                    if i < earlier.len() {
                        assert(earlier.contains(earlier[i]));
                    } else {
                        assert(kept.contains(kept[i - earlier.len()]));
                    }
                }
                if mined(txs, t).contains(s) && s.len() <= n {
                    if s.len() < n {
                        assert(earlier.contains(s));
                        let i = choose|i: int| 0 <= i < earlier.len() && earlier[i] == s;
                        assert(gathered[i] == s);
                    } else {
                        assert(kept.contains(s));
                        let i = choose|i: int| 0 <= i < kept.len() && kept[i] == s;
                        assert(gathered[earlier.len() + i] == s);
                    }
                }
            }
        }
        if found <= 1 {
            proof {
                if several(frequent(txs, t, n as nat)) {
                    let (a, b) = choose|a: Set<i32>, b: Set<i32>|
                        frequent(txs, t, n as nat).contains(a) && frequent(
                            txs,
                            t,
                            n as nat,
                        ).contains(b) && a != b;
                    assert(kept.contains(a) && kept.contains(b));
                }
            }
            break;
        }
        proof {
            assert(kept.contains(kept[0]) && kept.contains(kept[1]));
            lemma_two_subsets_leave_room(items@, n as nat, kept[0], kept[1]);
            assert(items@.len() == items.len());
        }
        n += 1;
    }
    proof {
        let listed = set_views(associations@);
        assert forall|i: int| 0 <= i < associations.len() implies {
            let s = (#[trigger] associations[i])@;
            &&& s.finite()
            &&& s.subset_of(universe(txs))
            &&& 2 <= s.len() <= universe(txs).len()
            &&& support(txs, s) >= support_threshold
        } by {
            let s = associations[i]@;
            assert(listed[i] == s);
            assert(listed.contains(s));
            vstd::set_lib::lemma_len_subset(s, universe(txs));
        }
        if itemsets@.len() == 0 && associations@.len() > 0 {
            assert(txs =~= Seq::<Set<i32>>::empty());
            lemma_empty_input(t);
            assert(listed.contains(listed[0]));
        }
    }
    associations
}

/// Why a mining request was turned down.
#[derive(Clone, Copy, Debug, PartialEq, Eq)]
pub enum MiningError {
    /// The support threshold was below zero.
    NegativeThreshold,
}

/// Mining for callers whose threshold is a signed number: a negative
/// threshold is turned down, any other is handed to [`apriori`].
pub fn mine(itemsets: &[HashSet<i32>], support_threshold: isize) -> (result: Result<
    Vec<HashSet<i32>>,
    MiningError,
>)
    ensures
        support_threshold < 0 <==> result is Err,
        result matches Err(e) ==> e == MiningError::NegativeThreshold,
        result matches Ok(associations) ==> {
            &&& set_views(associations@).no_duplicates()
            &&& set_views(associations@).to_set() == mined(
                set_views(itemsets@),
                support_threshold as nat,
            )
            &&& forall|i: int, j: int|
                0 <= i <= j < associations.len() ==> associations[i]@.len()
                    <= associations[j]@.len()
        },
{
    if support_threshold < 0 {
        Err(MiningError::NegativeThreshold)
    } else {
        Ok(apriori(itemsets, support_threshold as usize))
    }
}

} // verus!
