use data_mining::count_distribution::{CountDistribution, CountDistrubtion};
use data_mining::count_distribution_hybrid::CountDistributionHybrid;
use data_mining::transaction_set::TransactionSet;

fn example() -> TransactionSet {
    TransactionSet::new(
        vec![
            vec![0, 1, 4],
            vec![1, 3],
            vec![1, 2],
            vec![0, 1, 3],
            vec![0, 2],
            vec![1, 2],
            vec![0, 2],
            vec![0, 1, 2, 4],
            vec![0, 1, 2],
        ],
        5,
    )
}

#[test]
fn count_distribution_test_overall() {
    let example = example();
    let cd = CountDistribution::new(example, 8, 2);
    let cd = cd.run();
    assert!(cd[0].contains(&vec![0]));
    assert!(cd[0].contains(&vec![1]));
    assert!(cd[0].contains(&vec![2]));
    assert!(cd[0].contains(&vec![3]));
    assert!(cd[0].contains(&vec![4]));
    assert_eq!(cd[0].len(), 5);
    assert_eq!(cd[1].len(), 6);
    assert_eq!(cd[2].len(), 2);
}

#[test]
fn count_distribution2_test_overall() {
    let example = example();
    let cd = CountDistrubtion::new(example, 8, 2);
    let cd = cd.run();
    assert!(cd[0].contains(&vec![0]));
    assert!(cd[0].contains(&vec![1]));
    assert!(cd[0].contains(&vec![2]));
    assert!(cd[0].contains(&vec![3]));
    assert!(cd[0].contains(&vec![4]));
    assert_eq!(cd[0].len(), 5);
    assert_eq!(cd[1].len(), 6);
    assert_eq!(cd[2].len(), 2);
}

#[test]
fn count_distribution_hybrid_test_overall() {
    let example = example();
    let cd = CountDistributionHybrid::new(example, 8, 2, 3);
    let cd = cd.run();
    assert!(cd[0].contains(&vec![0]));
    assert!(cd[0].contains(&vec![1]));
    assert!(cd[0].contains(&vec![2]));
    assert!(cd[0].contains(&vec![3]));
    assert!(cd[0].contains(&vec![4]));
    assert_eq!(cd[0].len(), 5);
    assert_eq!(cd[1].len(), 6);
    assert_eq!(cd[2].len(), 2);
}
