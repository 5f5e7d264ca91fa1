use data_mining::apriori::Apriori;
use data_mining::apriori_hybrid::AprioriHybrid;
use data_mining::apriori_tid::AprioriTID;
use data_mining::array2d::Array2D;
use data_mining::hash_tree::{AprioriHashTree, AprioriHashTreeGeneric};
use data_mining::transaction_set::TransactionSet;

fn example() -> TransactionSet {
    TransactionSet::new(
        vec![
            vec![0, 1, 4],
            vec![1, 3],
            vec![1, 2],
            vec![0, 1, 3],
            vec![0, 2],
            vec![1, 2],
            vec![0, 2],
            vec![0, 1, 2, 4],
            vec![0, 1, 2],
        ],
        5,
    )
}

#[test]
fn test_candidates() {
    let example = example();
    let apriori = Apriori::new(2);
    let result = apriori.run(&example);
    assert!(result[1].contains(&vec![0, 1]));
    assert!(result[1].contains(&vec![0, 2]));
    assert!(result[1].contains(&vec![0, 4]));
    assert!(result[1].contains(&vec![1, 2]));
    assert!(result[1].contains(&vec![1, 3]));
    assert!(result[1].contains(&vec![1, 4]));
    assert_eq!(result[1].len(), 6);
    assert_eq!(result.len(), 3);
    assert_eq!(result[2].len(), 2);
}

#[test]
fn apriori_hybrid_test_apriori_tid() {
    let example = example();
    let apriori = AprioriHybrid::new(2, 3);
    let result = apriori.run(&example);
    assert_eq!(result.len(), 3);
    assert_eq!(result[0].len(), 5);
    assert_eq!(result[1].len(), 6);
    assert_eq!(result[2].len(), 2);
}

#[test]
fn apriori_tid_test_apriori_tid() {
    let example = example();
    let apriori = AprioriTID::new(2);
    let result = apriori.run(&example);
    println!("{result:?}");
    assert_eq!(result.len(), 3);
    assert_eq!(result[0].len(), 5);
    assert_eq!(result[1].len(), 6);
    assert_eq!(result[2].len(), 2);
}

#[test]
fn test_array2d() {
    let mut array2d = Array2D::new(3);
    array2d.increment(0, 1);
    assert_eq!(array2d.get(0, 1), 1);
    array2d.increment(1, 2);
    assert_eq!(array2d.get(1, 2), 1);
    let mut array2d = Array2D::new(5);
    array2d.increment(4, 3);
    array2d.increment(4, 3);
    assert_eq!(array2d.get(4, 3), 2);
    let mut array2d = Array2D::new(10);
    let mut count = 0;
    for i in 0..10 {
        for j in 0..i {
            array2d.set(i, j, count);
            count += 1;
        }
    }
    for i in 0..45 {
        assert_eq!(array2d.as_vec()[i], i as u64);
    }
    for (i, e) in array2d.iter().into_iter().enumerate() {
        assert_eq!(e.2, i as u64);
        assert_eq!(array2d.get(e.0, e.1), e.2);
    }
}

#[test]
fn test_hash_tree() {
    let mut tree = AprioriHashTree::new();
    tree.add(&vec![1, 2]);
    assert!(tree.contains(&vec![1, 2]));
    tree.increment(&vec![1, 2]);
    assert_eq!(tree.get_count(&vec![1, 2]), Some(1));
    assert!(!tree.contains(&vec![1, 3]));
    assert_eq!(tree.get_count(&vec![1, 3]), None);
    assert_eq!(tree.remove(&vec![1, 2]), Some((vec![1, 2], 1)));
    assert!(!tree.contains(&vec![1, 2]));
}

#[test]
fn test_hash_tree_iterator() {
    let mut tree = AprioriHashTreeGeneric::<2>::new();
    tree.add(&vec![1, 2]);
    tree.increment(&vec![1, 2]);
    tree.add(&vec![1, 3]);
    let mut set = std::collections::HashSet::new();
    set.insert(vec![1, 2]);
    set.insert(vec![1, 3]);
    let mut it = tree.iter();
    while let Some(item) = it.next() {
        assert!(set.remove(&item.0));
    }
    assert!(set.is_empty());
}
