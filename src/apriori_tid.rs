use vstd::prelude::*;
use crate::itemset::{support, views_of};
use crate::candidates::Candidates;
use crate::transaction_set::TransactionSet;
use crate::hash_tree::{AprioriHashTree, has_key};
use crate::frequent::{frequent, is_candidate, level_of, is_levels, lemma_candidate_shape, lemma_candidates_complete, lemma_size_bound, lemma_frequent_level};
use crate::apriori::{AprioriCandidates, apriori_run_one, frequent_in, levels_of};
use crate::transaction_id::{lemma_tid_support_bound, TransactionIDs, tids_of, next_tids, tid_support, candidates_of, singletons, included, tids_level, lemma_tid_support, lemma_next_tids, lemma_tids_within, lemma_tids_len};

verus! {

/// Contains the algorithm for AprioriTID: the frequent itemsets of the
/// previous pass, counted against TID entries.
pub struct AprioriTiDCandidates<'a>(&'a Candidates);

impl<'a> AprioriTiDCandidates<'a> {
    /// The previous frequent itemsets.
    pub closed spec fn prev(&self) -> Set<Seq<usize>> {
        self.0@
    }

    pub closed spec fn wf(&self) -> bool {
        self.0.wf()
    }

    /// Constructor.
    pub fn new(v: &'a Candidates) -> (r: Self)
        requires
            v.wf(),
        ensures
            r.prev() == v@,
            r.wf(),
    {
        Self(v)
    }

    /// Counts the candidates of the next pass against the TID entries, and
    /// returns the counts with the entries that follow.
    pub fn count_with_next(&self, data: &TransactionIDs) -> (r: (AprioriHashTree, TransactionIDs))
        requires
            self.wf(),
            data.wf(),
            exists|m: nat| m >= 1 && level_of(self.prev(), m) && #[trigger] tids_level(data.tids(), m),
        ensures
            r.0.wf(),
            r.1.wf(),
            forall|p: int| 0 <= p < r.0.entries().len() ==> is_candidate(self.prev(), (#[trigger] r.0.entries()[p]).0) && r.0.entries()[p].1 == tid_support(data.tids(), r.0.entries()[p].0),
            forall|c: Seq<usize>| is_candidate(self.prev(), c) ==> has_key(r.0.entries(), c),
            r.1.tids() == next_tids(data.tids(), candidates_of(self.prev())),
    {
        let ghost m = choose|m: nat| m >= 1 && level_of(self.prev(), m) && #[trigger] tids_level(data.tids(), m);
        let mut tree = AprioriCandidates::new(self.0).create_tree();
        let ghost e0 = tree.entries();
        let entries = data.len();
        proof {
            assert forall|p: int| 0 <= p < e0.len() implies (#[trigger] e0[p]).1 + data.tids().len() <= u64::MAX by {
            }
        }
        let next = data.count(&mut tree);
        proof {
            assert(Set::new(|c: Seq<usize>| has_key(e0, c)) =~= candidates_of(self.prev())) by {
                assert forall|c: Seq<usize>| has_key(e0, c) implies is_candidate(self.prev(), c) by {
                    let p = choose|p: int| 0 <= p < e0.len() && (#[trigger] e0[p]).0 == c;
                }
            }
            assert forall|c: Seq<usize>| is_candidate(self.prev(), c) implies has_key(tree.entries(), c) by {
                let p = choose|p: int| 0 <= p < e0.len() && (#[trigger] e0[p]).0 == c;
                assert(tree.entries()[p].0 == c);
            }
            assert forall|p: int| 0 <= p < tree.entries().len() implies is_candidate(self.prev(), (#[trigger] tree.entries()[p]).0) && tree.entries()[p].1 == tid_support(data.tids(), tree.entries()[p].0) by {
                assert(tree.entries()[p].0 == e0[p].0);
                assert(e0[p].1 == 0);
                lemma_tid_support_bound(data.tids(), e0[p].0);
            }
        }
        (tree, next)
    }

    /// Counts the candidates of the next pass against the TID entries.
    pub fn next_count(&self, data: &TransactionIDs) -> (r: AprioriHashTree)
        requires
            self.wf(),
            data.wf(),
            exists|m: nat| m >= 1 && level_of(self.prev(), m) && #[trigger] tids_level(data.tids(), m),
        ensures
            r.wf(),
            forall|p: int| 0 <= p < r.entries().len() ==> is_candidate(self.prev(), (#[trigger] r.entries()[p]).0) && r.entries()[p].1 == tid_support(data.tids(), r.entries()[p].0),
            forall|c: Seq<usize>| is_candidate(self.prev(), c) ==> has_key(r.entries(), c),
    {
        let (tree, _next) = self.count_with_next(data);
        tree
    }

    /// The candidates of the next pass whose count over the TID entries
    /// reaches `min_sup`, with the entries that follow.
    pub fn next_with_next(&self, data: &TransactionIDs, min_sup: u64) -> (r: (Candidates, TransactionIDs))
        requires
            self.wf(),
            data.wf(),
            exists|m: nat| m >= 1 && level_of(self.prev(), m) && #[trigger] tids_level(data.tids(), m),
        ensures
            r.0.wf(),
            r.1.wf(),
            r.0@ == Set::new(|c: Seq<usize>| is_candidate(self.prev(), c) && tid_support(data.tids(), c) >= min_sup),
            r.1.tids() == next_tids(data.tids(), candidates_of(self.prev())),
    {
        let (tree, next) = self.count_with_next(data);
        let set = frequent_in(&tree, min_sup);
        proof {
            assert(set@ =~= Set::new(|c: Seq<usize>| is_candidate(self.prev(), c) && tid_support(data.tids(), c) >= min_sup)) by {
                assert forall|c: Seq<usize>| is_candidate(self.prev(), c) && tid_support(data.tids(), c) >= min_sup implies set@.contains(c) by {
                    let p = choose|p: int| 0 <= p < tree.entries().len() && (#[trigger] tree.entries()[p]).0 == c;
                }
            }
        }
        (set, next)
    }

    /// The candidates of the next pass whose count over the TID entries
    /// reaches `min_sup`.
    pub fn next(&self, data: &TransactionIDs, min_sup: u64) -> (r: Candidates)
        requires
            self.wf(),
            data.wf(),
            exists|m: nat| m >= 1 && level_of(self.prev(), m) && #[trigger] tids_level(data.tids(), m),
        ensures
            r.wf(),
            r@ == Set::new(|c: Seq<usize>| is_candidate(self.prev(), c) && tid_support(data.tids(), c) >= min_sup),
    {
        let (set, _next) = self.next_with_next(data, min_sup);
        set
    }
}

/// One AprioriTID pass: from the TID entries of a level that includes the
/// frequent itemsets of size `k - 1`, the frequent itemsets of size `k` and
/// the TID entries of the candidates.
pub proof fn lemma_tid_pass(
    data: Seq<Seq<usize>>,
    n: nat,
    k: nat,
    min: nat,
    level: Set<Seq<usize>>,
)
    requires
        k >= 2,
        included(frequent(data, n, (k - 1) as nat, min), level),
        level_of(level, (k - 1) as nat),
    ensures
        Set::new(|c: Seq<usize>| is_candidate(frequent(data, n, (k - 1) as nat, min), c) && tid_support(tids_of(data, level), c) >= min)
            == frequent(data, n, k, min),
        next_tids(tids_of(data, level), candidates_of(frequent(data, n, (k - 1) as nat, min)))
            == tids_of(data, candidates_of(frequent(data, n, (k - 1) as nat, min))),
        included(frequent(data, n, k, min), candidates_of(frequent(data, n, (k - 1) as nat, min))),
        level_of(candidates_of(frequent(data, n, (k - 1) as nat, min)), k),
        tids_level(tids_of(data, level), (k - 1) as nat),
{
    let prev = frequent(data, n, (k - 1) as nat, min);
    lemma_frequent_level(data, n, (k - 1) as nat, min);
    lemma_candidates_complete(data, n, k, min);
    let lhs = Set::new(|c: Seq<usize>| is_candidate(prev, c) && tid_support(tids_of(data, level), c) >= min);
    assert(lhs =~= Set::new(|c: Seq<usize>| is_candidate(prev, c) && support(data, c) >= min)) by {
        assert forall|c: Seq<usize>| is_candidate(prev, c) implies tid_support(tids_of(data, level), c) == support(data, c) by {
            lemma_tid_support(data, level, prev, (k - 1) as nat, c);
        }
    }
    lemma_next_tids(data, level, prev, (k - 1) as nat);
    assert forall|s: Seq<usize>| #[trigger] candidates_of(prev).contains(s) implies crate::itemset::is_itemset(s) && s.len() == k by {
        lemma_candidate_shape(prev, (k - 1) as nat, s);
    }
    assert forall|i: int| 0 <= i < tids_of(data, level).len() implies level_of(#[trigger] tids_of(data, level)[i], (k - 1) as nat) by {
        lemma_tids_within(data, level, i);
    }
}

/// The AprioriTID algorithm.
pub struct AprioriTID {
    min_support: u64,
}

impl AprioriTID {
    pub closed spec fn min_support(&self) -> u64 {
        self.min_support
    }

    /// Constructor.
    pub fn new(min_support: u64) -> (r: Self)
        ensures
            r.min_support() == min_support,
    {
        Self { min_support }
    }

    /// The frequent itemsets level by level, counting each pass after the
    /// first against TID entries derived from the previous pass's entries.
    pub fn run(&self, data: &TransactionSet) -> (r: Vec<Candidates>)
        requires
            data.wf(),
            data.num_items < usize::MAX,
        ensures
            forall|j: int| 0 <= j < r@.len() ==> (#[trigger] r@[j]).wf(),
            is_levels(data.data(), data.num_items as nat, self.min_support() as nat, levels_of(r@)),
    {
        let min = self.min_support;
        let ghost dv = data.data();
        let ghost n = data.num_items as nat;
        let mut v: Vec<Candidates> = Vec::new();
        let first = apriori_run_one(data, min);
        if first.is_empty() {
            assert(levels_of(v@) =~= Seq::<Set<Seq<usize>>>::empty());
            return v;
        }
        proof {
            let c = first@.choose();
            assert(first@.contains(c));
            assert(c.len() == 1 && c[0] < n);
        }
        v.push(first);
        let mut tids = TransactionIDs::start(data.iter());
        let ghost mut level = singletons();
        proof {
            assert forall|s: Seq<usize>| #[trigger] frequent(dv, n, 1, min as nat).contains(s) implies level.contains(s) by {}
            assert forall|s: Seq<usize>| #[trigger] level.contains(s) implies crate::itemset::is_itemset(s) && s.len() == 1 by {}
        }
        let mut i: usize = 2;
        loop
            invariant
                min == self.min_support(),
                data.wf(),
                dv == data.data(),
                n == data.num_items,
                data.num_items < usize::MAX,
                2 <= i,
                i - 1 <= n,
                v@.len() == i - 1,
                forall|j: int| 0 <= j < v@.len() ==> (#[trigger] v@[j]).wf(),
                forall|j: int| 0 <= j < v@.len() ==> (#[trigger] v@[j])@ == frequent(dv, n, (j + 1) as nat, min as nat),
                forall|j: int| 0 <= j < v@.len() ==> (#[trigger] v@[j])@ != Set::<Seq<usize>>::empty(),
                tids.wf(),
                tids.tids() == tids_of(dv, level),
                included(frequent(dv, n, (i - 1) as nat, min as nat), level),
                level_of(level, (i - 1) as nat),
            decreases n + 2 - i,
        {
            proof {
                lemma_tid_pass(dv, n, i as nat, min as nat, level);
            }
            let (next, next_tids) = {
                let prev = &v[i - 2];
                assert(prev@ == frequent(dv, n, (i - 1) as nat, min as nat));
                proof {
                    lemma_frequent_level(dv, n, (i - 1) as nat, min as nat);
                    assert(tids_level(tids.tids(), (i - 1) as nat));
                }
                AprioriTiDCandidates::new(prev).next_with_next(&tids, min)
            };
            if next.is_empty() {
                proof {
                    assert(next@ == frequent(dv, n, i as nat, min as nat));
                    assert forall|j: int| 0 <= j < levels_of(v@).len() implies #[trigger] levels_of(v@)[j] == frequent(dv, n, (j + 1) as nat, min as nat) by {
                        assert(levels_of(v@)[j] == v@[j]@);
                    }
                    assert forall|j: int| 0 <= j < levels_of(v@).len() implies (#[trigger] levels_of(v@)[j]) != Set::<Seq<usize>>::empty() by {
                        assert(levels_of(v@)[j] == v@[j]@);
                    }
                }
                return v;
            }
            proof {
                let c = next@.choose();
                assert(next@.contains(c));
                assert(next@ == frequent(dv, n, i as nat, min as nat));
                lemma_size_bound(c, n);
                level = candidates_of(frequent(dv, n, (i - 1) as nat, min as nat));
            }
            v.push(next);
            tids = next_tids;
            i = i + 1;
        }
    }

    /// The frequent itemsets level by level, counting each pass against TID
    /// entries derived afresh from the transactions.
    pub fn run_obsolete(&self, data: &TransactionSet) -> (r: Vec<Candidates>)
        requires
            data.wf(),
            data.num_items < usize::MAX,
        ensures
            forall|j: int| 0 <= j < r@.len() ==> (#[trigger] r@[j]).wf(),
            is_levels(data.data(), data.num_items as nat, self.min_support() as nat, levels_of(r@)),
    {
        let min = self.min_support;
        let ghost dv = data.data();
        let ghost n = data.num_items as nat;
        let mut v: Vec<Candidates> = Vec::new();
        let first = apriori_run_one(data, min);
        if first.is_empty() {
            assert(levels_of(v@) =~= Seq::<Set<Seq<usize>>>::empty());
            return v;
        }
        proof {
            let c = first@.choose();
            assert(first@.contains(c));
            assert(c.len() == 1 && c[0] < n);
        }
        v.push(first);
        let mut i: usize = 2;
        loop
            invariant
                min == self.min_support(),
                data.wf(),
                dv == data.data(),
                n == data.num_items,
                data.num_items < usize::MAX,
                2 <= i,
                i - 1 <= n,
                v@.len() == i - 1,
                forall|j: int| 0 <= j < v@.len() ==> (#[trigger] v@[j]).wf(),
                forall|j: int| 0 <= j < v@.len() ==> (#[trigger] v@[j])@ == frequent(dv, n, (j + 1) as nat, min as nat),
                forall|j: int| 0 <= j < v@.len() ==> (#[trigger] v@[j])@ != Set::<Seq<usize>>::empty(),
            decreases n + 2 - i,
        {
            let next = {
                let prev = &v[i - 2];
                proof {
                    lemma_frequent_level(dv, n, (i - 1) as nat, min as nat);
                    lemma_candidates_complete(dv, n, i as nat, min as nat);
                }
                let (tree, _tids) = TransactionIDs::from_transaction(data.iter(), i - 1, prev);
                let set = frequent_in(&tree, min);
                proof {
                    assert(set@ =~= frequent(dv, n, i as nat, min as nat)) by {
                        assert forall|c: Seq<usize>| #[trigger] frequent(dv, n, i as nat, min as nat).contains(c) implies set@.contains(c) by {
                            assert(is_candidate(prev@, c));
                            let p = choose|p: int| 0 <= p < tree.entries().len() && (#[trigger] tree.entries()[p]).0 == c;
                        }
                    }
                }
                set
            };
            if next.is_empty() {
                proof {
                    assert forall|j: int| 0 <= j < levels_of(v@).len() implies #[trigger] levels_of(v@)[j] == frequent(dv, n, (j + 1) as nat, min as nat) by {
                        assert(levels_of(v@)[j] == v@[j]@);
                    }
                    assert forall|j: int| 0 <= j < levels_of(v@).len() implies (#[trigger] levels_of(v@)[j]) != Set::<Seq<usize>>::empty() by {
                        assert(levels_of(v@)[j] == v@[j]@);
                    }
                }
                return v;
            }
            proof {
                let c = next@.choose();
                assert(next@.contains(c));
                lemma_size_bound(c, n);
            }
            v.push(next);
            i = i + 1;
        }
    }
}

} // verus!
