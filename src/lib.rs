//! Frequent-itemset mining with the Apriori family of algorithms.
//!
//! The library counts how often itemsets occur in a transaction dataset and
//! returns, level by level, the itemsets whose support meets a threshold.

/// Itemsets, support, and the ordered-merge subset test.
pub mod itemset;
/// The transaction dataset.
pub mod transaction_set;
/// Sets of itemsets.
pub mod candidates;
/// The pairwise counter of pass 2: a strictly lower triangular matrix.
pub mod array2d;
/// The counting table of passes 3 and later, with hashed buckets.
mod hash_index;
pub mod hash_tree;
/// Counters indexed by the hash of an itemset.
pub mod hash_table;
/// Frequent itemsets, candidates, and the laws relating them.
pub mod frequent;
/// Enumeration of the itemsets of one size inside a transaction.
pub mod utils;
/// The join step of candidate generation.
pub mod candidates_func;
/// Counting passes, the adaptive transaction scanner, and Apriori.
pub mod apriori;
/// TID entries: the itemsets each transaction is known to contain.
pub mod transaction_id;
/// AprioriTID: counting against TID entries.
pub mod apriori_tid;
/// AprioriHybrid: Apriori passes, then AprioriTID passes.
pub mod apriori_hybrid;
/// A TID pass that joins without pruning.
pub mod candidates_tid;
/// Count Distribution: passes counted over shards and merged.
pub mod count_distribution;
/// Count Distribution with per-shard TID entries.
pub mod count_distribution_hybrid;
/// A prefix trie of itemsets with counters.
pub mod trie;
/// Apriori run on the prefix trie.
pub mod apriori_trie;
