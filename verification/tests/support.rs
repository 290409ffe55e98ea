use apriori::{count_and_filter, is_subset, support_count};
use std::collections::HashSet;

fn set(items: &[i32]) -> HashSet<i32> {
    items.iter().copied().collect()
}

fn transactions() -> Vec<HashSet<i32>> {
    vec![
        set(&[1, 2, 3]),
        set(&[1, 2]),
        set(&[2, 3]),
        set(&[2]),
        set(&[]),
    ]
}

#[test]
fn subset_test() {
    assert!(is_subset(&set(&[]), &set(&[])));
    assert!(is_subset(&set(&[]), &set(&[1])));
    assert!(is_subset(&set(&[1]), &set(&[1])));
    assert!(is_subset(&set(&[1, 3]), &set(&[3, 2, 1])));
    assert!(!is_subset(&set(&[1]), &set(&[])));
    assert!(!is_subset(&set(&[1, 4]), &set(&[1, 2, 3])));
    assert!(!is_subset(&set(&[1, 2, 3]), &set(&[1, 2])));
}

#[test]
fn support_counts_containing_transactions() {
    let all = transactions();
    assert_eq!(support_count(&set(&[2]), &all), 4);
    assert_eq!(support_count(&set(&[1, 2]), &all), 2);
    assert_eq!(support_count(&set(&[2, 3]), &all), 2);
    assert_eq!(support_count(&set(&[1, 2, 3]), &all), 1);
    assert_eq!(support_count(&set(&[4]), &all), 0);
    assert_eq!(support_count(&set(&[1, 4]), &all), 0);
}

#[test]
fn every_transaction_contains_the_empty_itemset() {
    assert_eq!(support_count(&set(&[]), &transactions()), 5);
}

#[test]
fn support_over_no_transactions_is_zero() {
    let none: Vec<HashSet<i32>> = Vec::new();
    assert_eq!(support_count(&set(&[1]), &none), 0);
    assert_eq!(support_count(&set(&[]), &none), 0);
}

#[test]
fn repeated_transactions_count_each_time() {
    let all = vec![set(&[1, 2]), set(&[1, 2]), set(&[1, 2])];
    assert_eq!(support_count(&set(&[1, 2]), &all), 3);
}

#[test]
fn filter_keeps_order_and_is_inclusive() {
    let candidates = vec![
        set(&[2, 3]),
        set(&[1, 4]),
        set(&[1, 2]),
        set(&[1, 2, 3]),
        set(&[2]),
    ];
    let kept = count_and_filter(candidates, &transactions(), 2);
    assert_eq!(kept, vec![set(&[2, 3]), set(&[1, 2]), set(&[2])]);
}

#[test]
fn filter_at_threshold_zero_keeps_everything() {
    let candidates = vec![set(&[9]), set(&[1, 2]), set(&[7, 8])];
    let kept = count_and_filter(candidates.clone(), &transactions(), 0);
    assert_eq!(kept, candidates);
}

#[test]
fn filter_of_no_candidates_is_empty() {
    assert!(count_and_filter(Vec::new(), &transactions(), 0).is_empty());
    assert!(count_and_filter(Vec::new(), &transactions(), 3).is_empty());
}

#[test]
fn filter_above_every_support_keeps_nothing() {
    let candidates = vec![set(&[2]), set(&[1, 2])];
    assert!(count_and_filter(candidates, &transactions(), 5).is_empty());
}

#[test]
fn filter_keeps_a_repeated_candidate_each_time() {
    let candidates = vec![set(&[2]), set(&[4]), set(&[2])];
    let kept = count_and_filter(candidates, &transactions(), 4);
    assert_eq!(kept, vec![set(&[2]), set(&[2])]);
}
