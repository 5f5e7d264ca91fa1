use vstd::prelude::*;
use crate::itemset::{views_of, is_itemset, items_below, is_valid_itemset};

verus! {

/// A dataset of transactions over the items `0 .. num_items`.
#[derive(Debug, Default, Clone)]
pub struct TransactionSet {
    pub transactions: Vec<Vec<usize>>,
    pub num_items: usize,
}

impl TransactionSet {
    /// The transactions as sequences of items.
    pub open spec fn data(&self) -> Seq<Seq<usize>> {
        views_of(self.transactions@)
    }

    /// Each transaction is an itemset over `0 .. num_items`.
    pub open spec fn wf(&self) -> bool {
        forall|i: int|
            0 <= i < self.data().len() ==> is_itemset(#[trigger] self.data()[i]) && items_below(
                self.data()[i],
                self.num_items as nat,
            )
    }

    /// Constructor.
    pub fn new(transactions: Vec<Vec<usize>>, num_items: usize) -> (r: Self)
        ensures
            r.transactions@ == transactions@,
            r.data() == views_of(transactions@),
            r.num_items == num_items,
    {
        Self { transactions, num_items }
    }

    /// The dataset of `transactions` over the items `0 ..= m`, where `m` is
    /// the largest item that occurs (0 when none does).
    pub fn from_transactions(transactions: Vec<Vec<usize>>) -> (r: Option<Self>)
        ensures
            r.is_some() <==> forall|i: int, j: int|
                0 <= i < transactions@.len() && 0 <= j < transactions@[i]@.len() ==> #[trigger] transactions@[i]@[j] < usize::MAX,
            r.is_some() ==> {
                let d = r.unwrap();
                &&& d.data() == views_of(transactions@)
                &&& forall|i: int, j: int|
                    0 <= i < transactions@.len() && 0 <= j < transactions@[i]@.len() ==> #[trigger] transactions@[i]@[j] < d.num_items
                &&& d.num_items >= 1
                &&& (d.num_items == 1 || exists|i: int, j: int|
                    0 <= i < transactions@.len() && 0 <= j < transactions@[i]@.len() && #[trigger] transactions@[i]@[j] == d.num_items - 1)
            },
    {
        let mut max: usize = 0;
        let mut i: usize = 0;
        while i < transactions.len()
            invariant
                0 <= i <= transactions@.len(),
                forall|a: int, b: int| 0 <= a < i && 0 <= b < transactions@[a]@.len() ==> #[trigger] transactions@[a]@[b] <= max,
                max == 0 || exists|a: int, b: int| 0 <= a < i && 0 <= b < transactions@[a]@.len() && #[trigger] transactions@[a]@[b] == max,
                forall|a: int, b: int| 0 <= a < i && 0 <= b < transactions@[a]@.len() ==> #[trigger] transactions@[a]@[b] < usize::MAX,
            decreases transactions.len() - i,
        {
            let t = &transactions[i];
            let mut j: usize = 0;
            while j < t.len()
                invariant
                    0 <= i < transactions@.len(),
                    t@ == transactions@[i as int]@,
                    0 <= j <= t@.len(),
                    forall|a: int, b: int| 0 <= a < i && 0 <= b < transactions@[a]@.len() ==> #[trigger] transactions@[a]@[b] <= max,
                    forall|b: int| 0 <= b < j ==> #[trigger] t@[b] <= max,
                    max == 0 || exists|a: int, b: int| 0 <= a <= i && 0 <= b < transactions@[a]@.len() && (a < i || b < j) && #[trigger] transactions@[a]@[b] == max,
                    forall|a: int, b: int| 0 <= a < i && 0 <= b < transactions@[a]@.len() ==> #[trigger] transactions@[a]@[b] < usize::MAX,
                    forall|b: int| 0 <= b < j ==> #[trigger] t@[b] < usize::MAX,
                decreases t.len() - j,
            {
                if t[j] == usize::MAX {
                    assert(transactions@[i as int]@[j as int] == usize::MAX);
                    return None;
                }
                if t[j] > max {
                    max = t[j];
                    assert(transactions@[i as int]@[j as int] == max);
                }
                j = j + 1;
            }
            proof {
                assert forall|b: int| 0 <= b < transactions@[i as int]@.len() implies #[trigger] transactions@[i as int]@[b] <= max by {
                    assert(t@[b] <= max);
                }
                assert forall|b: int| 0 <= b < transactions@[i as int]@.len() implies #[trigger] transactions@[i as int]@[b] < usize::MAX by {
                    assert(t@[b] < usize::MAX);
                }
                if max != 0 {
                    let (a, b) = choose|a: int, b: int| 0 <= a <= i && 0 <= b < transactions@[a]@.len() && (a < i || b < j) && #[trigger] transactions@[a]@[b] == max;
                }
            }
            i = i + 1;
        }
        Some(Self::new(transactions, max + 1))
    }

    /// The transactions, in order.
    pub fn iter(&self) -> (r: &Vec<Vec<usize>>)
        ensures
            views_of(r@) == self.data(),
    {
        &self.transactions
    }

    /// Number of transactions.
    pub fn len(&self) -> (r: usize)
        ensures
            r == self.data().len(),
    {
        self.transactions.len()
    }

    /// Tests whether every transaction is an itemset over `0 .. num_items`.
    pub fn is_well_formed(&self) -> (r: bool)
        ensures
            r == self.wf(),
    {
        let mut i: usize = 0;
        while i < self.transactions.len()
            invariant
                0 <= i <= self.data().len(),
                forall|k: int|
                    0 <= k < i ==> is_itemset(#[trigger] self.data()[k]) && items_below(
                        self.data()[k],
                        self.num_items as nat,
                    ),
            decreases self.transactions.len() - i,
        {
            if !is_valid_itemset(&self.transactions[i], self.num_items) {
                assert(self.data()[i as int] == self.transactions@[i as int]@);
                return false;
            }
            assert(self.data()[i as int] == self.transactions@[i as int]@);
            i = i + 1;
        }
        true
    }
}

} // verus!
