use vstd::prelude::*;
use crate::itemset::{is_itemset, items_below, support, views_of};
use crate::candidates::Candidates;
use crate::transaction_set::TransactionSet;
use crate::frequent::{frequent, is_candidate, level_of, is_levels, lemma_candidates_complete, lemma_size_bound, lemma_frequent_level, lemma_candidate_shape};
use crate::apriori::{AprioriCandidates, apriori_run_one, frequent_in, levels_of, flatten_levels};
use crate::apriori_tid::{AprioriTiDCandidates, lemma_tid_pass};
use crate::transaction_id::{TransactionIDs, tids_of, candidates_of, included, tids_level};

verus! {

/// The AprioriHybrid algorithm: Apriori passes up to a switch pass, then
/// AprioriTID passes.
pub struct AprioriHybrid {
    min_support: u64,
    /// The pass at which counting moves to TID entries.
    switch: usize,
}

impl AprioriHybrid {
    pub closed spec fn min_support(&self) -> u64 {
        self.min_support
    }

    pub closed spec fn switch(&self) -> usize {
        self.switch
    }

    /// Constructor.
    pub fn new(min_support: u64, switch: usize) -> (r: Self)
        ensures
            r.min_support() == min_support,
            r.switch() == switch,
    {
        AprioriHybrid { min_support, switch }
    }

    /// The frequent itemsets level by level.
    pub fn run(&self, data: &TransactionSet) -> (r: Vec<Candidates>)
        requires
            data.wf(),
            data.num_items < usize::MAX,
            data.num_items * (data.num_items - 1) <= usize::MAX,
            self.switch() >= 2,
        ensures
            forall|j: int| 0 <= j < r@.len() ==> (#[trigger] r@[j]).wf(),
            is_levels(data.data(), data.num_items as nat, self.min_support() as nat, levels_of(r@)),
    {
        let min = self.min_support;
        let ghost dv = data.data();
        let ghost n = data.num_items as nat;
        let mut v: Vec<Candidates> = Vec::new();
        let first = apriori_run_one(data, min);
        if first.is_empty() {
            assert(levels_of(v@) =~= Seq::<Set<Seq<usize>>>::empty());
            return v;
        }
        proof {
            let c = first@.choose();
            assert(first@.contains(c));
            assert(c.len() == 1 && c[0] < n);
        }
        v.push(first);
        let mut tids = TransactionIDs::default();
        let ghost mut level = Set::<Seq<usize>>::empty();
        let mut i: usize = 2;
        loop
            invariant
                min == self.min_support(),
                self.switch() >= 2,
                data.wf(),
                dv == data.data(),
                n == data.num_items,
                data.num_items >= 1,
                data.num_items < usize::MAX,
                data.num_items * (data.num_items - 1) <= usize::MAX,
                2 <= i,
                i - 1 <= n,
                v@.len() == i - 1,
                forall|j: int| 0 <= j < v@.len() ==> (#[trigger] v@[j]).wf(),
                forall|j: int| 0 <= j < v@.len() ==> (#[trigger] v@[j])@ == frequent(dv, n, (j + 1) as nat, min as nat),
                forall|j: int| 0 <= j < v@.len() ==> (#[trigger] v@[j])@ != Set::<Seq<usize>>::empty(),
                tids.wf(),
                i > self.switch() ==> tids.tids() == tids_of(dv, level),
                i > self.switch() ==> included(frequent(dv, n, (i - 1) as nat, min as nat), level),
                i > self.switch() ==> level_of(level, (i - 1) as nat),
            decreases n + 2 - i,
        {
            let next = {
                let prev = &v[i - 2];
                assert(prev@ == frequent(dv, n, (i - 1) as nat, min as nat));
                proof {
                    lemma_frequent_level(dv, n, (i - 1) as nat, min as nat);
                    lemma_candidates_complete(dv, n, i as nat, min as nat);
                }
                if i < self.switch {
                    AprioriCandidates::new(prev).run(data, i, min)
                } else if i == self.switch {
                    proof {
                        assert forall|x: int| 0 <= x < data.transactions@.len() implies is_itemset(#[trigger] views_of(data.transactions@)[x]) by {
                            assert(dv[x] == views_of(data.transactions@)[x]);
                        }
                    }
                    let (tree, a) = TransactionIDs::from_transaction(&data.transactions, i - 1, prev);
                    let c = frequent_in(&tree, min);
                    proof {
                        assert(c@ =~= frequent(dv, n, i as nat, min as nat)) by {
                            assert forall|s: Seq<usize>| #[trigger] frequent(dv, n, i as nat, min as nat).contains(s) implies c@.contains(s) by {
                                assert(is_candidate(prev@, s));
                                let p = choose|p: int| 0 <= p < tree.entries().len() && (#[trigger] tree.entries()[p]).0 == s;
                            }
                        }
                        level = candidates_of(prev@);
                        assert forall|s: Seq<usize>| #[trigger] level.contains(s) implies is_itemset(s) && s.len() == i by {
                            lemma_candidate_shape(prev@, (i - 1) as nat, s);
                        }
                        assert forall|s: Seq<usize>| #[trigger] frequent(dv, n, i as nat, min as nat).contains(s) implies level.contains(s) by {
                        }
                    }
                    tids = a;
                    c
                } else {
                    proof {
                        lemma_tid_pass(dv, n, i as nat, min as nat, level);
                    }
                    let (c, b) = AprioriTiDCandidates::new(prev).next_with_next(&tids, min);
                    proof {
                        level = candidates_of(prev@);
                    }
                    tids = b;
                    c
                }
            };
            if next.is_empty() {
                proof {
                    assert(next@ == frequent(dv, n, i as nat, min as nat));
                    assert forall|j: int| 0 <= j < levels_of(v@).len() implies #[trigger] levels_of(v@)[j] == frequent(dv, n, (j + 1) as nat, min as nat) by {
                        assert(levels_of(v@)[j] == v@[j]@);
                    }
                    assert forall|j: int| 0 <= j < levels_of(v@).len() implies (#[trigger] levels_of(v@)[j]) != Set::<Seq<usize>>::empty() by {
                        assert(levels_of(v@)[j] == v@[j]@);
                    }
                }
                return v;
            }
            proof {
                let c = next@.choose();
                assert(next@.contains(c));
                assert(next@ == frequent(dv, n, i as nat, min as nat));
                lemma_size_bound(c, n);
            }
            v.push(next);
            i = i + 1;
        }
    }

    /// Every frequent itemset once, smaller itemsets first; the streaming form
    /// of `run`.
    pub fn run_fn(&self, data: &TransactionSet) -> (r: Vec<Vec<usize>>)
        requires
            data.wf(),
            data.num_items < usize::MAX,
            data.num_items * (data.num_items - 1) <= usize::MAX,
            self.switch() >= 2,
        ensures
            forall|c: Seq<usize>| #[trigger] views_of(r@).contains(c) == (c.len() >= 1 && is_itemset(c) && items_below(c, data.num_items as nat) && support(data.data(), c) >= self.min_support()),
            views_of(r@).no_duplicates(),
            forall|a: int, b: int| 0 <= a < b < r@.len() ==> (#[trigger] r@[a])@.len() <= (#[trigger] r@[b])@.len(),
    {
        let levels = self.run(data);
        flatten_levels(&levels, data, self.min_support)
    }
}

} // verus!
