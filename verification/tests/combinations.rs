use apriori::gen_combinations;
use std::collections::HashSet;

fn set(items: &[i32]) -> HashSet<i32> {
    items.iter().copied().collect()
}

fn normalized(itemsets: &[HashSet<i32>]) -> Vec<Vec<i32>> {
    let mut all: Vec<Vec<i32>> = itemsets
        .iter()
        .map(|s| {
            let mut items: Vec<i32> = s.iter().copied().collect();
            items.sort();
            items
        })
        .collect();
    all.sort();
    all
}

fn binomial(m: usize, n: usize) -> usize {
    if n > m {
        return 0;
    }
    let mut value = 1;
    for i in 0..n {
        value = value * (m - i) / (i + 1);
    }
    value
}

#[test]
fn pairs_of_four_items() {
    let found = gen_combinations(&set(&[1, 2, 3, 4]), 2);
    assert_eq!(
        normalized(&found),
        vec![
            vec![1, 2],
            vec![1, 3],
            vec![1, 4],
            vec![2, 3],
            vec![2, 4],
            vec![3, 4],
        ]
    );
}

#[test]
fn triples_of_five_items() {
    let found = gen_combinations(&set(&[1, 2, 3, 4, 5]), 3);
    assert_eq!(
        normalized(&found),
        vec![
            vec![1, 2, 3],
            vec![1, 2, 4],
            vec![1, 2, 5],
            vec![1, 3, 4],
            vec![1, 3, 5],
            vec![1, 4, 5],
            vec![2, 3, 4],
            vec![2, 3, 5],
            vec![2, 4, 5],
            vec![3, 4, 5],
        ]
    );
}

#[test]
fn singletons_are_the_items() {
    let found = gen_combinations(&set(&[8, -3, 5]), 1);
    assert_eq!(normalized(&found), vec![vec![-3], vec![5], vec![8]]);
}

#[test]
fn full_size_is_the_universe_itself() {
    let found = gen_combinations(&set(&[4, 6, 9]), 3);
    assert_eq!(normalized(&found), vec![vec![4, 6, 9]]);
}

#[test]
fn size_above_the_universe_yields_nothing() {
    assert!(gen_combinations(&set(&[1, 2, 3]), 4).is_empty());
    assert!(gen_combinations(&set(&[1, 2, 3]), usize::MAX).is_empty());
}

#[test]
fn empty_universe_yields_nothing() {
    assert!(gen_combinations(&set(&[]), 1).is_empty());
    assert!(gen_combinations(&set(&[]), 2).is_empty());
}

#[test]
fn size_zero_yields_nothing() {
    assert!(gen_combinations(&set(&[1, 2, 3]), 0).is_empty());
    assert!(gen_combinations(&set(&[]), 0).is_empty());
}

#[test]
fn counts_are_binomial_and_members_distinct() {
    let universe: Vec<i32> = (0..9).map(|i| i * 7 - 20).collect();
    let items = set(&universe);
    for n in 1..=10 {
        let found = gen_combinations(&items, n);
        assert_eq!(found.len(), binomial(9, n));
        let mut seen = normalized(&found);
        seen.dedup();
        assert_eq!(seen.len(), found.len());
        for itemset in &found {
            assert_eq!(itemset.len(), n);
            assert!(itemset.is_subset(&items));
        }
    }
}
