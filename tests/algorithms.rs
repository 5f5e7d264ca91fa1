use std::collections::HashSet;

use data_mining::apriori::Apriori;
use data_mining::apriori_hybrid::AprioriHybrid;
use data_mining::apriori_tid::AprioriTID;
use data_mining::apriori_trie::AprioriT;
use data_mining::candidates::Candidates;
use data_mining::count_distribution::CountDistribution;
use data_mining::count_distribution_hybrid::CountDistributionHybrid;
use data_mining::transaction_set::TransactionSet;

fn datasets() -> Vec<TransactionSet> {
    vec![
        TransactionSet::new(
            vec![
                vec![0, 1, 4],
                vec![1, 3],
                vec![1, 2],
                vec![0, 1, 3],
                vec![0, 2],
                vec![1, 2],
                vec![0, 2],
                vec![0, 1, 2, 4],
                vec![0, 1, 2],
            ],
            5,
        ),
        TransactionSet::new(
            vec![
                vec![0, 1, 2, 3, 6],
                vec![0, 1, 2],
                vec![1, 2, 3, 5],
                vec![0, 1, 2, 3, 5, 6],
                vec![2, 3, 4],
                vec![0, 1, 3, 6],
                vec![],
                vec![0, 1, 2, 3, 4, 5, 6],
                vec![1, 3, 5, 6],
            ],
            7,
        ),
    ]
}

/// Every itemset whose support reaches `min`, found by trying every subset of
/// the items.
fn brute_force(data: &TransactionSet, min: u64) -> HashSet<Vec<usize>> {
    let n = data.num_items;
    let mut out = HashSet::new();
    for mask in 1u32..(1u32 << n) {
        let set: Vec<usize> = (0..n).filter(|i| mask & (1 << i) != 0).collect();
        let count = data
            .transactions
            .iter()
            .filter(|t| set.iter().all(|x| t.contains(x)))
            .count() as u64;
        if count >= min {
            out.insert(set);
        }
    }
    out
}

fn combined(levels: Vec<Candidates>) -> HashSet<Vec<usize>> {
    let mut all = HashSet::new();
    for level in levels {
        for c in level.to_vec() {
            all.insert(c);
        }
    }
    all
}

#[test]
fn test_apriori() {
    for data in datasets() {
        for min in 1..5u64 {
            assert_eq!(combined(Apriori::new(min).run(&data)), brute_force(&data, min));
        }
    }
}

#[test]
fn test_tid() {
    for data in datasets() {
        for min in 1..5u64 {
            assert_eq!(combined(AprioriTID::new(min).run(&data)), brute_force(&data, min));
        }
    }
}

#[test]
fn test_hybrid() {
    for data in datasets() {
        for min in 1..5u64 {
            for switch in 2..5 {
                let r = AprioriHybrid::new(min, switch).run(&data);
                assert_eq!(combined(r), brute_force(&data, min));
            }
        }
    }
}

#[test]
fn apriori_test_trie() {
    for data in datasets() {
        for min in 1..5u64 {
            let mut a = AprioriT::new(min);
            a.run(&data);
            let found: HashSet<Vec<usize>> = a.trie().for_each(min).into_iter().collect();
            assert_eq!(found, brute_force(&data, min));
        }
    }
}

#[test]
fn test_cd() {
    for data in datasets() {
        for min in 1..5u64 {
            for threads in 1..5 {
                let r = CountDistribution::new(data.clone(), threads, min).run();
                assert_eq!(combined(r), brute_force(&data, min));
            }
        }
    }
}

#[test]
fn test_cd_hybrid() {
    for data in datasets() {
        for min in 1..5u64 {
            for threads in 1..5 {
                let r = CountDistributionHybrid::new(data.clone(), threads, min, 3).run();
                assert_eq!(combined(r), brute_force(&data, min));
            }
        }
    }
}
