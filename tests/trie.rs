use std::collections::HashSet;

use data_mining::apriori_trie::AprioriT;
use data_mining::transaction_set::TransactionSet;
use data_mining::trie::AprioriTrie;

#[test]
fn test_apriorit() {
    let example = TransactionSet::new(
        vec![
            vec![0, 1, 4],
            vec![1, 3],
            vec![1, 2],
            vec![0, 1, 3],
            vec![0, 2],
            vec![1, 2],
            vec![0, 2],
            vec![0, 1, 2, 4],
            vec![0, 1, 2],
        ],
        5,
    );
    let mut a = AprioriT::new(2);
    a.run(&example);
    let mut set = HashSet::new();
    for v in a.trie().for_each(2) {
        set.insert(v.to_vec());
    }
    assert!(set.contains(&vec![0, 1]));
    assert!(set.contains(&vec![0, 2]));
    assert!(set.contains(&vec![0, 4]));
    assert!(set.contains(&vec![1, 2]));
    assert!(set.contains(&vec![1, 3]));
    assert!(set.contains(&vec![1, 4]));
    assert_eq!(set.len(), 13);
}

#[test]
fn trie_test_trie() {
    let mut trie = AprioriTrie::new();
    assert_eq!(trie.size(), 0);
    assert_eq!(trie.get(&vec![0]), None);
    assert!(trie.add(&vec![1]));
    assert!(!trie.add(&vec![1]));
    assert_eq!(trie.get(&vec![1]), Some(0));
    trie.insert(&vec![1], 1);
    assert_eq!(trie.get(&vec![1]), Some(1));
    trie.add(&vec![0, 1, 2, 3]);
    assert!(trie.contains(&vec![0]));
    assert!(trie.contains(&vec![0, 1]));
    assert!(trie.contains(&vec![0, 1, 2]));
    assert!(trie.contains(&vec![0, 1, 2, 3]));
}

#[test]
fn test_transaction_update() {
    let mut trie = AprioriTrie::new();
    trie.insert(&vec![1], 10);
    trie.insert(&vec![2], 20);
    trie.insert(&vec![3], 1);
    trie.insert(&vec![4], 10);
    trie.add(&vec![1, 2]);
    trie.transaction_update(&vec![1, 2, 3], 2);
    assert_eq!(trie.get(&vec![1, 2]), Some(1));
    assert_eq!(trie.size(), 5);
    trie.join(2, 5);
    assert!(trie.contains(&vec![1, 4]));
    assert!(trie.contains(&vec![2, 4]));
    assert_eq!(trie.size(), 7);
    trie.transaction_update(&vec![2, 3, 4], 2);
    assert_eq!(trie.get(&vec![2, 4]), Some(1));
    let mut set = HashSet::new();
    for v in trie.for_each(5) {
        set.insert(v.to_vec());
    }
    assert!(set.contains(&vec![1]));
    assert!(set.contains(&vec![2]));
    assert!(set.contains(&vec![4]));
    assert!(set.len() == 3);
}
