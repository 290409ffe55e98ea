//! Frequent itemset mining over a list of transactions.
//!
//! A transaction is a set of item identifiers. Given the transactions and a
//! support threshold, [`apriori`] returns the itemsets of two or more items
//! that at least that many transactions contain. It works in rounds, one
//! itemset size per round: [`gen_combinations`] lists the candidates of the
//! round and [`count_and_filter`] keeps the frequent ones.
//!
//! What is returned is defined in [`model`], over mathematical sets and
//! sequences; [`laws`] proves what follows from the definitions.
pub mod combinations;
pub mod itemset;
pub mod laws;
mod lemmas;
pub mod miner;
pub mod model;
pub mod support;

pub use crate::combinations::gen_combinations;
pub use crate::itemset::is_subset;
pub use crate::miner::{apriori, item_universe, mine, MiningError};
pub use crate::support::{count_and_filter, support_count};
