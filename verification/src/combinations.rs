//! Enumerating every itemset of a given size over a set of items.
//!
//! The items are laid out in a pool, one position each. An itemset of `n`
//! items is then a choice of `n` positions in ascending order, and the
//! choices are grown one position at a time.
use crate::model::{set_views, subsets_of_size};
use std::collections::HashSet;
use vstd::prelude::*;
use vstd::std_specs::iter::IteratorSpec;

verus! {

/// The positions of `c` are strictly ascending.
spec fn ascending(c: Seq<usize>) -> bool {
    forall|a: int, b: int| 0 <= a < b < c.len() ==> c[a] < c[b]
}

/// `c` is an ascending choice of positions in a pool of `m` items.
spec fn choice(c: Seq<usize>, m: nat) -> bool {
    &&& ascending(c)
    &&& forall|a: int| 0 <= a < c.len() ==> c[a] < m
}

/// `c` is the beginning of a choice of `n` positions in a pool of `m` items:
/// ascending, and each position leaves room for those still to come.
spec fn viable(c: Seq<usize>, n: nat, m: nat) -> bool {
    &&& c.len() <= n
    &&& ascending(c)
    &&& forall|a: int| 0 <= a < c.len() ==> c[a] + (n - a) <= m
}

/// The items of `pool` at the positions of `c`.
spec fn chosen(pool: Seq<i32>, c: Seq<usize>) -> Set<i32> {
    Set::new(|x: i32| exists|a: int| 0 <= a < c.len() && pool[#[trigger] c[a] as int] == x)
}

/// The positions of the items of `pool` that are in `s`, ascending.
spec fn positions(pool: Seq<i32>, s: Set<i32>) -> Seq<usize>
    decreases pool.len(),
{
    if pool.len() == 0 {
        Seq::empty()
    } else if s.contains(pool.last()) {
        positions(pool.drop_last(), s).push((pool.len() - 1) as usize)
    } else {
        positions(pool.drop_last(), s)
    }
}

/// Ascending positions are at least as far apart as their indices.
proof fn lemma_ascending_gap(c: Seq<usize>, a: int, b: int)
    requires
        ascending(c),
        0 <= a <= b < c.len(),
    ensures
        c[a] + (b - a) <= c[b],
    decreases b - a,
{
    if a < b {
        lemma_ascending_gap(c, a, b - 1);
    }
}

/// A full choice is viable, and a viable choice of full length is a choice.
proof fn lemma_choice_viable(c: Seq<usize>, m: nat)
    ensures
        choice(c, m) <==> viable(c, c.len(), m),
{
    if choice(c, m) {
        assert forall|a: int| 0 <= a < c.len() implies c[a] + (c.len() - a) <= m by {
            lemma_ascending_gap(c, a, c.len() - 1);
        }
    }
}

/// A choice picks as many items as it has positions, all from the pool.
proof fn lemma_chosen_is_subset(pool: Seq<i32>, c: Seq<usize>)
    requires
        pool.no_duplicates(),
        choice(c, pool.len()),
    ensures
        subsets_of_size(pool.to_set(), c.len()).contains(chosen(pool, c)),
{
    let picked = Seq::new(c.len(), |a: int| pool[c[a] as int]);
    picked.unique_seq_to_set();
    assert(picked.to_set() =~= chosen(pool, c)) by {
        assert forall|x: i32| chosen(pool, c).contains(x) implies picked.to_set().contains(x) by {
            let a = choose|a: int| 0 <= a < c.len() && pool[#[trigger] c[a] as int] == x;
            assert(picked[a] == x);
        }
    }
}

/// Two ascending sequences with the same members are the same sequence.
proof fn lemma_ascending_unique(c: Seq<usize>, d: Seq<usize>)
    requires
        ascending(c),
        ascending(d),
        c.to_set() == d.to_set(),
    ensures
        c == d,
    decreases c.len(),
{
    if c.len() == 0 {
        if d.len() > 0 {
            assert(d.to_set().contains(d[0]));
        }
    } else {
        assert(c.to_set().contains(c.last()));
        assert(d.to_set().contains(d.last()));
        let c0 = c.drop_last();
        let d0 = d.drop_last();
        assert(c0.to_set() =~= d0.to_set()) by {
            assert forall|p: usize| c0.contains(p) implies d0.contains(p) by {
                assert(c.to_set().contains(p));
                let b = choose|b: int| 0 <= b < d.len() && d[b] == p;
                assert(d0[b] == p);
            }
            assert forall|p: usize| d0.contains(p) implies c0.contains(p) by {
                assert(d.to_set().contains(p));
                let a = choose|a: int| 0 <= a < c.len() && c[a] == p;
                assert(c0[a] == p);
            }
        }
        lemma_ascending_unique(c0, d0);
        assert(c =~= c0.push(c.last()));
    }
}

/// Different choices pick different itemsets.
proof fn lemma_chosen_injective(pool: Seq<i32>, c: Seq<usize>, d: Seq<usize>)
    requires
        pool.no_duplicates(),
        choice(c, pool.len()),
        choice(d, pool.len()),
        chosen(pool, c) == chosen(pool, d),
    ensures
        c == d,
{
    assert(c.to_set() =~= d.to_set()) by {
        assert forall|p: usize| c.contains(p) implies d.contains(p) by {
            let a = choose|a: int| 0 <= a < c.len() && c[a] == p;
            assert(chosen(pool, c).contains(pool[c[a] as int]));
        }
        assert forall|p: usize| d.contains(p) implies c.contains(p) by {
            let b = choose|b: int| 0 <= b < d.len() && d[b] == p;
            assert(chosen(pool, d).contains(pool[d[b] as int]));
        }
    }
    lemma_ascending_unique(c, d);
}

/// The positions of the items of `s` form a choice that picks exactly the
/// items of `s` that the pool holds.
proof fn lemma_positions(pool: Seq<i32>, s: Set<i32>)
    requires
        pool.len() <= usize::MAX,
    ensures
        choice(positions(pool, s), pool.len()),
        chosen(pool, positions(pool, s)) == s.intersect(pool.to_set()),
    decreases pool.len(),
{
    if pool.len() > 0 {
        let c = positions(pool, s);
        let pool0 = pool.drop_last();
        let c0 = positions(pool0, s);
        lemma_positions(pool0, s);
        assert forall|x: i32| chosen(pool, c).contains(x) implies s.intersect(
            pool.to_set(),
        ).contains(x) by {
            let a = choose|a: int| 0 <= a < c.len() && pool[#[trigger] c[a] as int] == x;
            if a < c0.len() {
                assert(chosen(pool0, c0).contains(x));
            }
        }
        assert forall|x: i32| s.intersect(pool.to_set()).contains(x) implies chosen(
            pool,
            c,
        ).contains(x) by {
            let i = choose|i: int| 0 <= i < pool.len() && pool[i] == x;
            if i < pool0.len() {
                assert(pool0[i] == x);
                assert(chosen(pool0, c0).contains(x));
                let a = choose|a: int| 0 <= a < c0.len() && pool0[#[trigger] c0[a] as int] == x;
                assert(c[a] == c0[a]);
            } else {
                assert(c.last() == pool.len() - 1);
            }
        }
    }
}

/// Every itemset of `n` items from the pool is picked by some choice of `n`
/// positions.
proof fn lemma_chosen_surjective(pool: Seq<i32>, s: Set<i32>, n: nat)
    requires
        pool.no_duplicates(),
        pool.len() <= usize::MAX,
        subsets_of_size(pool.to_set(), n).contains(s),
    ensures
        choice(positions(pool, s), pool.len()),
        positions(pool, s).len() == n,
        chosen(pool, positions(pool, s)) == s,
{
    lemma_positions(pool, s);
    lemma_chosen_is_subset(pool, positions(pool, s));
    assert(s.intersect(pool.to_set()) =~= s);
}

/// The choices held by a level of the enumeration.
spec fn choices(level: Seq<Vec<usize>>) -> Seq<Seq<usize>> {
    level.map_values(|c: Vec<usize>| c@)
}

/// `level` holds every viable choice of `k` positions, each once, and
/// nothing else.
spec fn complete_level(level: Seq<Seq<usize>>, k: nat, n: nat, m: nat) -> bool {
    &&& level.no_duplicates()
    &&& forall|i: int|
        0 <= i < level.len() ==> (#[trigger] level[i]).len() == k && viable(level[i], n, m)
    &&& forall|c: Seq<usize>| c.len() == k && viable(c, n, m) ==> #[trigger] level.contains(c)
}

/// The items of a set, each once, in the order in which the set yields them.
fn pool_of(items: &HashSet<i32>) -> (pool: Vec<i32>)
    ensures
        pool@.no_duplicates(),
        pool@.to_set() == items@,
        pool@.len() == items@.len(),
{
    let mut pool: Vec<i32> = Vec::new();
    let ghost all: Seq<&i32> = items.iter().remaining();
    for x in it: items.iter()
        invariant
            it.seq() == all,
            pool@ == all.take(it.index()).unref(),
    {
        pool.push(*x);
    }
    assert(pool@ =~= all.unref());
    pool
}

/// The itemset that a choice of positions picks from the pool.
fn pick(pool: &Vec<i32>, c: &Vec<usize>) -> (s: HashSet<i32>)
    requires
        choice(c@, pool@.len()),
    ensures
        s@ == chosen(pool@, c@),
{
    let mut s: HashSet<i32> = HashSet::new();
    let mut a: usize = 0;
    while a < c.len()
        invariant
            a <= c.len(),
            choice(c@, pool@.len()),
            s@ == chosen(pool@, c@.take(a as int)),
        decreases c.len() - a,
    {
        s.insert(pool[c[a]]);
        a += 1;
        assert(s@ =~= chosen(pool@, c@.take(a as int))) by {
            let before = c@.take(a - 1);
            let after = c@.take(a as int);
            assert forall|x: i32|
                chosen(pool@, before).insert(pool@[c@[a - 1] as int]).contains(
                    x,
                ) implies chosen(pool@, after).contains(x) by {
                if !chosen(pool@, before).contains(x) {
                    assert(pool@[after[a - 1] as int] == x);
                }
            }
        }
    }
    assert(c@.take(a as int) =~= c@);
    s
}

/// From every viable choice of `k` positions, every viable choice of `k + 1`.
fn extend_choices(level: &Vec<Vec<usize>>, k: usize, n: usize, m: usize) -> (next: Vec<Vec<usize>>)
    requires
        k < n <= m,
        complete_level(choices(level@), k as nat, n as nat, m as nat),
    ensures
        complete_level(choices(next@), (k + 1) as nat, n as nat, m as nat),
{
    let limit = m - (n - k - 1);
    let mut next: Vec<Vec<usize>> = Vec::new();
    let mut i: usize = 0;
    while i < level.len()
        invariant
            i <= level.len(),
            k < n <= m,
            limit == m - (n - k - 1),
            complete_level(choices(level@), k as nat, n as nat, m as nat),
            choices(next@).no_duplicates(),
            forall|a: int|
                0 <= a < next.len() ==> {
                    &&& (#[trigger] next[a])@.len() == k + 1
                    &&& viable(next[a]@, n as nat, m as nat)
                    &&& exists|b: int| 0 <= b < i && (#[trigger] level[b])@ == next[a]@.drop_last()
                },
            forall|c: Seq<usize>, b: int|
                c.len() == k + 1 && viable(c, n as nat, m as nat) && 0 <= b < i && (
                #[trigger] level[b])@ == c.drop_last() ==> #[trigger] choices(next@).contains(c),
        decreases level.len() - i,
    {
        let base = &level[i];
        assert(choices(level@)[i as int] == base@);
        let start: usize = if k == 0 {
            0
        } else {
            base[k - 1] + 1
        };
        let mut j: usize = start;
        while j < limit
            invariant
                i < level.len(),
                k < n <= m,
                limit == m - (n - k - 1),
                start <= j,
                base@ == level[i as int]@,
                base@.len() == k,
                viable(base@, n as nat, m as nat),
                k > 0 ==> start == base[k - 1] + 1,
                complete_level(choices(level@), k as nat, n as nat, m as nat),
                choices(next@).no_duplicates(),
                forall|a: int|
                    0 <= a < next.len() ==> {
                        &&& (#[trigger] next[a])@.len() == k + 1
                        &&& viable(next[a]@, n as nat, m as nat)
                        &&& ((exists|b: int|
                            0 <= b < i && (#[trigger] level[b])@ == next[a]@.drop_last()) || (
                        next[a]@.drop_last() == base@ && next[a]@.last() < j))
                    },
                forall|c: Seq<usize>, b: int|
                    c.len() == k + 1 && viable(c, n as nat, m as nat) && 0 <= b < i && (
                    #[trigger] level[b])@ == c.drop_last() ==> #[trigger] choices(next@).contains(
                        c,
                    ),
                forall|c: Seq<usize>|
                    c.len() == k + 1 && viable(c, n as nat, m as nat) && c.drop_last() == base@
                        && c.last() < j ==> #[trigger] choices(next@).contains(c),
            decreases limit - j,
        {
            let mut grown = base.clone();
            grown.push(j);
            let ghost before = next@;
            next.push(grown);
            proof {
                let g = grown@;
                assert(g.drop_last() =~= base@);
                assert(choices(next@) =~= choices(before).push(g));
                assert forall|a: int| 0 <= a < before.len() implies choices(before)[a] != g by {
                    if before[a]@.drop_last() == base@ && !(before[a]@.last() < j) {
                        let b = choose|b: int|
                            0 <= b < i && (#[trigger] level[b])@ == before[a]@.drop_last();
                        assert(choices(level@)[b] == level[b]@);
                        assert(choices(level@)[i as int] == level[i as int]@);
                    }
                }
                assert forall|c: Seq<usize>|
                    c.len() == k + 1 && viable(c, n as nat, m as nat) && c.drop_last() == base@
                        && c.last() < j + 1 implies #[trigger] choices(next@).contains(c) by {
                    if c.last() == j {
                        assert(choices(next@)[before.len() as int] == c);
                    } else {
                        assert(choices(before).contains(c));
                        let a = choose|a: int| 0 <= a < before.len() && choices(before)[a] == c;
                        assert(choices(next@)[a] == c);
                    }
                }
                assert forall|c: Seq<usize>, b: int|
                    c.len() == k + 1 && viable(c, n as nat, m as nat) && 0 <= b < i && (
                    #[trigger] level[b])@ == c.drop_last() implies #[trigger] choices(
                    next@,
                ).contains(c) by {
                    assert(choices(before).contains(c));
                    let a = choose|a: int| 0 <= a < before.len() && choices(before)[a] == c;
                    assert(choices(next@)[a] == c);
                }
            }
            j += 1;
        }
        i += 1;
    }
    proof {
        let full = choices(next@);
        assert forall|c: Seq<usize>| c.len() == k + 1 && viable(c, n as nat, m as nat) implies (
        #[trigger] full.contains(c)) by {
            let c0 = c.drop_last();
            assert(choices(level@).contains(c0));
        }
    }
    next
}

/// Every itemset of exactly `n` items drawn from `items`, each exactly once.
///
/// The order of the result is not determined. When `n` is larger than the
/// number of items there is no such itemset, and asking for itemsets of no
/// items yields nothing either.
pub fn gen_combinations(items: &HashSet<i32>, n: usize) -> (combinations: Vec<HashSet<i32>>)
    ensures
        set_views(combinations@).no_duplicates(),
        n > 0 ==> set_views(combinations@).to_set() == subsets_of_size(items@, n as nat),
        n == 0 || n > items@.len() ==> combinations@.len() == 0,
{
    let mut combinations: Vec<HashSet<i32>> = Vec::new();
    let pool = pool_of(items);
    let m = pool.len();
    if n == 0 || n > m {
        proof {
            if n > m {
                assert forall|s: Set<i32>| !subsets_of_size(items@, n as nat).contains(s) by {
                    if s.finite() && s.subset_of(items@) {
                        vstd::set_lib::lemma_len_subset(s, items@);
                    }
                }
            }
        }
        return combinations;
    }
    let mut level: Vec<Vec<usize>> = Vec::new();
    level.push(Vec::new());
    let mut k: usize = 0;
    proof {
        let first = choices(level@);
        assert forall|c: Seq<usize>| c.len() == 0 implies #[trigger] first.contains(c) by {
            assert(first[0] =~= c);
        }
    }
    while k < n
        invariant
            k <= n <= m,
            complete_level(choices(level@), k as nat, n as nat, m as nat),
        decreases n - k,
    {
        level = extend_choices(&level, k, n, m);
        k += 1;
    }
    let mut i: usize = 0;
    while i < level.len()
        invariant
            i <= level.len(),
            k == n,
            m == pool@.len(),
            complete_level(choices(level@), n as nat, n as nat, m as nat),
            combinations@.len() == i,
            forall|a: int|
                0 <= a < i ==> (#[trigger] combinations[a])@ == chosen(pool@, level[a]@),
        decreases level.len() - i,
    {
        let c = &level[i];
        proof {
            assert(choices(level@)[i as int] == c@);
        }
        combinations.push(pick(&pool, c));
        i += 1;
    }
    proof {
        let found = set_views(combinations@);
        let all = choices(level@);
        assert(forall|a: int|
            0 <= a < found.len() ==> choice(#[trigger] all[a], m as nat) && found[a] == chosen(
                pool@,
                all[a],
            ));
        assert forall|a: int, b: int|
            0 <= a < found.len() && 0 <= b < found.len() && a != b implies found[a]
            != found[b] by {
            if found[a] == found[b] {
                lemma_chosen_injective(pool@, all[a], all[b]);
            }
        }
        assert forall|s: Set<i32>| found.to_set().contains(s) implies subsets_of_size(
            items@,
            n as nat,
        ).contains(s) by {
            let a = choose|a: int| 0 <= a < found.len() && found[a] == s;
            lemma_chosen_is_subset(pool@, all[a]);
        }
        assert forall|s: Set<i32>|
            subsets_of_size(items@, n as nat).contains(s) implies found.to_set().contains(s) by {
            let c = positions(pool@, s);
            lemma_chosen_surjective(pool@, s, n as nat);
            lemma_choice_viable(c, m as nat);
            assert(all.contains(c));
        }
    }
    combinations
}

} // verus!
