use vstd::prelude::*;
use crate::hash_tree::{bucket_index, path_hash};

verus! {

/// A table of counters indexed by the hash of an itemset; itemsets that hash
/// alike share a counter.
#[derive(Debug)]
pub struct HashTable {
    arr: Vec<u64>,
}

impl HashTable {
    /// The counters.
    pub closed spec fn counters(&self) -> Seq<u64> {
        self.arr@
    }

    /// The counter that `v` maps to.
    pub open spec fn slot(&self, v: Seq<usize>) -> int {
        path_hash(v, self.counters().len()) as int
    }

    /// A table of `n` zero counters.
    pub fn new(n: usize) -> (r: Self)
        requires
            0 < n <= usize::MAX / 2,
        ensures
            r.counters() == Seq::new(n as nat, |i: int| 0u64),
    {
        let mut arr: Vec<u64> = Vec::new();
        let mut i: usize = 0;
        while i < n
            invariant
                0 <= i <= n,
                arr@ =~= Seq::new(i as nat, |j: int| 0u64),
            decreases n - i,
        {
            arr.push(0);
            i = i + 1;
        }
        Self { arr }
    }

    /// Adds one to the counter of `v`.
    pub fn increment(&mut self, v: &Vec<usize>)
        requires
            0 < old(self).counters().len() <= usize::MAX / 2,
            old(self).counters()[old(self).slot(v@)] < u64::MAX,
        ensures
            final(self).counters() == old(self).counters().update(
                old(self).slot(v@),
                (old(self).counters()[old(self).slot(v@)] + 1) as u64,
            ),
    {
        let i = bucket_index(v, self.arr.len());
        let c = self.arr[i];
        self.arr.set(i, c + 1);
    }

    /// The counter of `v`.
    pub fn get(&self, v: &Vec<usize>) -> (r: u64)
        requires
            0 < self.counters().len() <= usize::MAX / 2,
        ensures
            r == self.counters()[self.slot(v@)],
    {
        let i = bucket_index(v, self.arr.len());
        self.arr[i]
    }
}

} // verus!
