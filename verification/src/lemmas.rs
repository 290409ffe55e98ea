//! Facts about sequences and finite sets that the mining loop rests on.
use crate::model::subsets_of_size;
use std::collections::HashSet;
use vstd::prelude::*;
use vstd::std_specs::iter::IteratorSpec;

verus! {

/// A hash set holds finitely many items: it holds what its iterator lists.
pub(crate) proof fn lemma_hash_set_finite(items: &HashSet<i32>)
    ensures
        items@.finite(),
{
    let listed: Seq<&i32> = items.iter().remaining();
    vstd::seq_lib::seq_to_set_is_finite(listed.unref());
}

/// Filtering keeps exactly the members that satisfy the predicate, and
/// introduces no duplicates.
pub(crate) proof fn lemma_filter_members<A>(s: Seq<A>, pred: spec_fn(A) -> bool)
    ensures
        forall|x: A| #[trigger] s.filter(pred).contains(x) <==> s.contains(x) && pred(x),
        s.no_duplicates() ==> s.filter(pred).no_duplicates(),
    decreases s.len(),
{
    reveal(Seq::filter);
    if s.len() > 0 {
        let kept = s.filter(pred);
        let rest = s.drop_last();
        let kept_rest = rest.filter(pred);
        lemma_filter_members(rest, pred);
        assert forall|x: A| #[trigger] kept.contains(x) <==> s.contains(x) && pred(x) by {
            if kept.contains(x) {
                let i = choose|i: int| 0 <= i < kept.len() && kept[i] == x;
                if i < kept_rest.len() {
                    assert(kept_rest.contains(x));
                }
            }
            if s.contains(x) && pred(x) {
                let j = choose|j: int| 0 <= j < s.len() && s[j] == x;
                if j < rest.len() {
                    assert(rest[j] == x);
                }
            }
        }
        if s.no_duplicates() && pred(s.last()) {
            assert forall|i: int| 0 <= i < kept_rest.len() implies kept_rest[i] != s.last() by {
                if kept_rest[i] == s.last() {
                    assert(kept_rest.contains(s.last()));
                }
            }
        }
    }
}

/// Filtering by a predicate that every member satisfies changes nothing.
pub(crate) proof fn lemma_filter_keeps_all<A>(s: Seq<A>, pred: spec_fn(A) -> bool)
    requires
        forall|i: int| 0 <= i < s.len() ==> pred(#[trigger] s[i]),
    ensures
        s.filter(pred) == s,
    decreases s.len(),
{
    reveal(Seq::filter);
    if s.len() > 0 {
        lemma_filter_keeps_all(s.drop_last(), pred);
        assert(s.drop_last().push(s.last()) =~= s);
    }
}

/// Where a finite set has two different subsets of `n` items, it has more
/// than `n` items.
pub(crate) proof fn lemma_two_subsets_leave_room(u: Set<i32>, n: nat, a: Set<i32>, b: Set<i32>)
    requires
        u.finite(),
        subsets_of_size(u, n).contains(a),
        subsets_of_size(u, n).contains(b),
        a != b,
    ensures
        n < u.len(),
{
    vstd::set_lib::lemma_len_subset(a, u);
    if n == u.len() {
        vstd::set_lib::lemma_subset_equality(a, u);
        vstd::set_lib::lemma_subset_equality(b, u);
    }
}

} // verus!
