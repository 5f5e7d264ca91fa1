use data_mining::apriori::apriori_run_one;
use data_mining::apriori_tid::AprioriTiDCandidates;
use data_mining::candidates_tid::CandidateTid;
use data_mining::hash_table::HashTable;
use data_mining::apriori::{
    accept_level,
    apriori_count, apriori_run_one_count, apriori_run_two_count, combination_estimate,
    count_by_candidates, count_by_subsets, Apriori, AprioriCandidates,
};
use data_mining::apriori_hybrid::AprioriHybrid;
use data_mining::apriori_tid::AprioriTID;
use data_mining::array2d::{Array2D, Array2DIterator};
use data_mining::candidates::Candidates;
use data_mining::candidates_func::join;
use data_mining::count_distribution::{CountDistribution, CDProcess};
use data_mining::count_distribution_hybrid::CountDistributionHybrid;
use data_mining::hash_tree::AprioriHashTree;
use data_mining::itemset::is_subset;
use data_mining::transaction_id::{TransactionID, TransactionIDs};
use data_mining::transaction_set::TransactionSet;
use data_mining::utils::nested_loops;

fn fixture() -> TransactionSet {
    TransactionSet::new(
        vec![
            vec![0, 1, 4],
            vec![1, 3],
            vec![1, 2],
            vec![0, 1, 3],
            vec![0, 2],
            vec![1, 2],
            vec![0, 2],
            vec![0, 1, 2, 4],
            vec![0, 1, 2],
        ],
        5,
    )
}

fn second_dataset() -> TransactionSet {
    TransactionSet::new(
        vec![
            vec![0, 1, 2, 3],
            vec![0, 1, 2],
            vec![1, 2, 3, 5],
            vec![0, 1, 2, 3, 5],
            vec![2, 3, 4],
            vec![0, 1, 3],
            vec![],
            vec![0, 1, 2, 3, 4, 5],
        ],
        6,
    )
}

fn sorted_levels(levels: Vec<Candidates>) -> Vec<Vec<Vec<usize>>> {
    levels
        .into_iter()
        .map(|c| {
            let mut v = c.to_vec();
            v.sort();
            v
        })
        .collect()
}

#[test]
fn canonical_fixture_levels() {
    let levels = sorted_levels(Apriori::new(2).run(&fixture()));
    assert_eq!(levels.len(), 3);
    assert_eq!(levels[0], vec![vec![0], vec![1], vec![2], vec![3], vec![4]]);
    assert_eq!(
        levels[1],
        vec![vec![0, 1], vec![0, 2], vec![0, 4], vec![1, 2], vec![1, 3], vec![1, 4]]
    );
    assert_eq!(levels[2], vec![vec![0, 1, 2], vec![0, 1, 4]]);
}

#[test]
fn min_support_above_transaction_count_gives_nothing() {
    let data = fixture();
    assert!(Apriori::new(10).run(&data).is_empty());
    assert!(AprioriTID::new(10).run(&data).is_empty());
    assert!(AprioriHybrid::new(10, 3).run(&data).is_empty());
    assert!(CountDistribution::new(fixture(), 3, 10).run().is_empty());
    assert!(CountDistributionHybrid::new(fixture(), 3, 10, 3).run().is_empty());
}

#[test]
fn all_algorithms_agree() {
    for data in [fixture(), second_dataset()] {
        for min in 1..5u64 {
            let expected = sorted_levels(Apriori::new(min).run(&data));
            assert_eq!(sorted_levels(AprioriTID::new(min).run(&data)), expected);
            assert_eq!(sorted_levels(AprioriTID::new(min).run_obsolete(&data)), expected);
            for switch in 2..6 {
                assert_eq!(sorted_levels(AprioriHybrid::new(min, switch).run(&data)), expected);
            }
        }
    }
}

#[test]
fn sharding_does_not_change_the_result() {
    for min in 1..5u64 {
        let expected = sorted_levels(Apriori::new(min).run(&second_dataset()));
        for threads in [1usize, 2, 4, 8] {
            let cd = CountDistribution::new(second_dataset(), threads, min).run();
            assert_eq!(sorted_levels(cd), expected);
            let cdh = CountDistributionHybrid::new(second_dataset(), threads, min, 3).run();
            assert_eq!(sorted_levels(cdh), expected);
        }
    }
}

#[test]
fn levels_are_downward_closed() {
    let levels = sorted_levels(Apriori::new(1).run(&second_dataset()));
    for j in 1..levels.len() {
        for c in &levels[j] {
            for i in 0..c.len() {
                let mut sub = c.clone();
                sub.remove(i);
                assert!(levels[j - 1].contains(&sub));
            }
        }
    }
}

#[test]
fn run_stops_after_the_largest_itemset() {
    let data = TransactionSet::new(vec![vec![0, 1, 2, 3]], 4);
    let levels = sorted_levels(Apriori::new(1).run(&data));
    let sizes: Vec<usize> = levels.iter().map(|l| l.len()).collect();
    assert_eq!(sizes, vec![4, 6, 4, 1]);
}

#[test]
fn streaming_run_lists_every_frequent_itemset() {
    let all = Apriori::new(2).run_fn(&fixture());
    assert_eq!(all.len(), 13);
    assert!(all.contains(&vec![0, 1, 4]));
    let hybrid = AprioriHybrid::new(2, 3).run_fn(&fixture());
    assert_eq!(hybrid.len(), 13);
}

fn candidate_tree() -> AprioriHashTree {
    let prev = Candidates::new(vec![
        vec![0, 1],
        vec![0, 2],
        vec![0, 4],
        vec![1, 2],
        vec![1, 3],
        vec![1, 4],
    ]);
    AprioriCandidates::new(&prev).create_tree()
}

#[test]
fn counting_strategies_agree() {
    for t in [vec![0, 1, 2, 4], vec![0, 1, 4], vec![1, 3], vec![0, 1, 2, 3, 4], vec![]] {
        let mut a = candidate_tree();
        let mut b = candidate_tree();
        let mut c = candidate_tree();
        let mut hits_a = count_by_subsets(&t, 3, &mut a);
        let mut hits_b = count_by_candidates(&t, 3, &mut b);
        let mut hits_c = apriori_count(&t, 3, &mut c);
        hits_a.sort();
        hits_b.sort();
        hits_c.sort();
        assert_eq!(a.to_vec(), b.to_vec());
        assert_eq!(a.to_vec(), c.to_vec());
        assert_eq!(hits_a, hits_b);
        assert_eq!(hits_a, hits_c);
    }
}

#[test]
fn candidate_tree_holds_joined_and_pruned_itemsets() {
    let tree = candidate_tree();
    let mut keys: Vec<Vec<usize>> = tree.to_vec().into_iter().map(|e| e.0).collect();
    keys.sort();
    assert_eq!(keys, vec![vec![0, 1, 2], vec![0, 1, 4]]);
    assert!(tree.to_vec().iter().all(|e| e.1 == 0));
}

#[test]
fn pruning_checks_the_smaller_subsets() {
    let prev = Candidates::new(vec![vec![0, 1], vec![0, 2], vec![1, 2], vec![0, 3]]);
    let ac = AprioriCandidates::new(&prev);
    assert!(!ac.can_be_pruned(&vec![0, 1, 2]));
    assert!(ac.can_be_pruned(&vec![0, 1, 3]));
    assert!(!ac.can_be_pruned(&vec![0, 1]));
}

#[test]
fn join_pairs_itemsets_with_a_common_prefix() {
    let mut joined = join(&vec![vec![0, 1], vec![0, 3], vec![1, 2], vec![0, 2]]);
    joined.sort();
    assert_eq!(joined, vec![vec![0, 1, 2], vec![0, 1, 3], vec![0, 2, 3]]);
    let mut pairs = join(&vec![vec![4], vec![1], vec![2]]);
    pairs.sort();
    assert_eq!(pairs, vec![vec![1, 2], vec![1, 4], vec![2, 4]]);
    assert!(join(&vec![]).is_empty());
}

#[test]
fn nested_loops_enumerates_each_combination_once() {
    let mut c = nested_loops(&vec![1, 3, 5, 7], 2);
    c.sort();
    assert_eq!(
        c,
        vec![vec![1, 3], vec![1, 5], vec![1, 7], vec![3, 5], vec![3, 7], vec![5, 7]]
    );
    assert_eq!(nested_loops(&vec![1, 3, 5], 0), vec![Vec::<usize>::new()]);
    assert!(nested_loops(&vec![1, 3], 3).is_empty());
}

#[test]
fn combination_estimate_values() {
    assert_eq!(combination_estimate(5, 2), 10);
    assert_eq!(combination_estimate(10, 3), 120);
    assert_eq!(combination_estimate(7, 0), 1);
    assert_eq!(combination_estimate(7, 7), 1);
    assert_eq!(combination_estimate(200, 100), u64::MAX);
}

#[test]
fn pass_one_and_two_counts() {
    let data = fixture();
    assert_eq!(apriori_run_one_count(&data), vec![6, 7, 6, 2, 2]);
    let pairs = apriori_run_two_count(&data);
    assert_eq!(pairs.get(1, 0), 4);
    assert_eq!(pairs.get(0, 2), 4);
    assert_eq!(pairs.get(4, 1), 2);
    assert_eq!(pairs.get(3, 2), 0);
}

#[test]
fn subset_test_by_merge() {
    assert!(is_subset(&vec![1, 4], &vec![0, 1, 2, 4]));
    assert!(!is_subset(&vec![1, 3], &vec![0, 1, 2, 4]));
    assert!(is_subset(&vec![], &vec![0]));
    assert!(!is_subset(&vec![5], &vec![]));
}

#[test]
fn hash_tree_add_is_idempotent() {
    let mut tree = AprioriHashTree::new();
    assert!(tree.add(&vec![1, 2]));
    assert!(!tree.add(&vec![1, 2]));
    assert_eq!(tree.len(), 1);
    assert!(!tree.increment(&vec![2, 3]));
    assert_eq!(tree.remove(&vec![2, 3]), None);
    assert!(!tree.is_empty());
}

#[test]
fn array2d_add_assign_and_iterator() {
    let mut a = Array2D::new(4);
    let mut b = Array2D::new(4);
    a.increment(2, 1);
    b.increment(1, 2);
    b.set(3, 0, 5);
    a.add_assign(&b);
    assert_eq!(a.get(2, 1), 2);
    assert_eq!(a.get(0, 3), 5);
    let mut it = Array2DIterator::new(&a);
    let mut n = 0;
    while let Some((r, c, v)) = it.next() {
        assert!(c < r);
        assert_eq!(a.get(r, c), v);
        n += 1;
    }
    assert_eq!(n, 6);
}

#[test]
fn tid_entries_of_pass_one() {
    let data = TransactionSet::new(vec![vec![0, 2], vec![], vec![1]], 3);
    let tids = TransactionIDs::start(data.iter());
    assert_eq!(tids.len(), 2);
    let entry = TransactionID::start(&vec![0, 2]);
    assert!(entry.ids().contains(&vec![0]));
    assert!(entry.ids().contains(&vec![2]));
    assert_eq!(entry.ids().len(), 2);
}

#[test]
fn shards_are_contiguous() {
    let cd = CountDistribution::new(fixture(), 4, 2);
    assert_eq!(cd.partition(0).transactions, vec![vec![0, 1, 4], vec![1, 3]]);
    assert_eq!(cd.partition(3).len(), 3);
    let parts = cd.partitions();
    let total: usize = parts.iter().map(|p| p.len()).sum();
    assert_eq!(total, 9);
    let counts = CDProcess::new(parts[3].clone(), Candidates::default()).run_one();
    assert_eq!(counts, vec![3, 2, 3, 0, 1]);
}

#[test]
fn dataset_items_run_to_the_largest_one() {
    let data = TransactionSet::from_transactions(vec![vec![0, 3], vec![], vec![1, 7]]).unwrap();
    assert_eq!(data.num_items, 8);
    assert_eq!(data.len(), 3);
    assert!(data.is_well_formed());
    let empty = TransactionSet::from_transactions(vec![]).unwrap();
    assert_eq!(empty.num_items, 1);
    assert!(TransactionSet::from_transactions(vec![vec![usize::MAX]]).is_none());
    let unsorted = TransactionSet::new(vec![vec![2, 1]], 3);
    assert!(!unsorted.is_well_formed());
}

#[test]
fn tid_passes_give_the_frequent_pairs() {
    let data = fixture();
    let f1 = apriori_run_one(&data, 2);
    assert_eq!(f1.len(), 5);
    let tids = TransactionIDs::start(data.iter());
    assert_eq!(tids.len(), 9);
    let f2 = AprioriTiDCandidates::new(&f1).next(&tids, 2);
    assert_eq!(f2.len(), 6);
    let unpruned = CandidateTid::one(&data, 2).next(&tids, 2);
    assert_eq!(unpruned.candidates().len(), 6);
    let (f2b, next) = AprioriTiDCandidates::new(&f1).next_with_next(&tids, 2);
    assert_eq!(f2b.len(), 6);
    let f3 = AprioriTiDCandidates::new(&f2b).next(&next, 2);
    let mut f3 = f3.to_vec();
    f3.sort();
    assert_eq!(f3, vec![vec![0, 1, 2], vec![0, 1, 4]]);
}

#[test]
fn tid_switch_in_counts_the_candidates() {
    let data = fixture();
    let f2 = Candidates::new(vec![
        vec![0, 1],
        vec![0, 2],
        vec![0, 4],
        vec![1, 2],
        vec![1, 3],
        vec![1, 4],
    ]);
    let (tree, tids) = TransactionIDs::from_transaction(&data.transactions, 2, &f2);
    let mut counts = tree.to_vec();
    counts.sort();
    assert_eq!(counts, vec![(vec![0, 1, 2], 2), (vec![0, 1, 4], 2)]);
    assert_eq!(tids.len(), 3);
}

#[test]
fn hash_table_counts_by_bucket() {
    let mut table = HashTable::new(7);
    table.increment(&vec![1, 2]);
    table.increment(&vec![1, 2]);
    assert_eq!(table.get(&vec![1, 2]), 2);
    let mut single = HashTable::new(1);
    single.increment(&vec![3]);
    single.increment(&vec![5, 6]);
    assert_eq!(single.get(&vec![9]), 2);
}

#[test]
fn pass_step_appends_until_a_level_is_empty() {
    let mut levels: Vec<Candidates> = Vec::new();
    assert!(accept_level(&mut levels, Candidates::new(vec![vec![0], vec![1]])));
    assert_eq!(levels.len(), 1);
    assert!(!accept_level(&mut levels, Candidates::default()));
    assert_eq!(levels.len(), 1);
}
