use vstd::prelude::*;
use crate::itemset::views_of;
use crate::candidates::Candidates;
use crate::candidates_func::join;
use crate::transaction_set::TransactionSet;
use crate::hash_tree::{AprioriHashTree, has_key};
use crate::frequent::{joined, level_of, frequent};
use crate::apriori::{apriori_run_one, frequent_in};
use crate::transaction_id::{TransactionIDs, tid_support, tids_level, lemma_tid_support_bound};

verus! {

/// A counting table holding each itemset of `list` with counter 0.
fn tree_of(list: &Vec<Vec<usize>>) -> (r: AprioriHashTree)
    requires
        forall|i: int| 0 <= i < list@.len() ==> (#[trigger] list@[i])@.len() > 0,
    ensures
        r.wf(),
        forall|c: Seq<usize>| #[trigger] has_key(r.entries(), c) == views_of(list@).contains(c),
        forall|p: int| 0 <= p < r.entries().len() ==> (#[trigger] r.entries()[p]).1 == 0,
{
    let mut tree = AprioriHashTree::new();
    let mut q: usize = 0;
    while q < list.len()
        invariant
            forall|i: int| 0 <= i < list@.len() ==> (#[trigger] list@[i])@.len() > 0,
            0 <= q <= list@.len(),
            tree.wf(),
            forall|c: Seq<usize>| #[trigger] has_key(tree.entries(), c) == views_of(list@).take(q as int).contains(c),
            forall|p: int| 0 <= p < tree.entries().len() ==> (#[trigger] tree.entries()[p]).1 == 0,
        decreases list.len() - q,
    {
        let ghost before = tree.entries();
        let ghost x = list@[q as int]@;
        tree.add(&list[q]);
        proof {
            assert(views_of(list@).take(q as int + 1) =~= views_of(list@).take(q as int).push(x));
            crate::itemset::lemma_push_contains(views_of(list@).take(q as int), x);
            crate::itemset::lemma_push_contains(before, (x, 0u64));
            assert forall|c: Seq<usize>| #[trigger] has_key(tree.entries(), c) == views_of(list@).take(q as int + 1).contains(c) by {
                if has_key(tree.entries(), c) {
                    let p = choose|p: int| 0 <= p < tree.entries().len() && (#[trigger] tree.entries()[p]).0 == c;
                    if p < before.len() {
                        assert(before[p].0 == c);
                    }
                }
                if has_key(before, c) {
                    let p = choose|p: int| 0 <= p < before.len() && (#[trigger] before[p]).0 == c;
                    assert(tree.entries()[p].0 == c);
                }
                if c == x && !has_key(before, c) {
                    assert(tree.entries()[before.len() as int].0 == c);
                }
            }
        }
        q = q + 1;
    }
    proof {
        assert(views_of(list@).take(q as int) =~= views_of(list@));
    }
    tree
}

/// The itemsets joined from `s` (without pruning) whose count over the TID
/// entries reaches `min_sup`.
pub fn next(s: &Candidates, data: &TransactionIDs, min_sup: u64) -> (r: Candidates)
    requires
        s.wf(),
        data.wf(),
        exists|m: nat| m >= 1 && level_of(s@, m) && #[trigger] tids_level(data.tids(), m),
    ensures
        r.wf(),
        r@ == Set::new(|c: Seq<usize>| joined(s@, c) && tid_support(data.tids(), c) >= min_sup),
{
    let ghost m = choose|m: nat| m >= 1 && level_of(s@, m) && #[trigger] tids_level(data.tids(), m);
    let items = s.as_vec();
    proof {
        assert forall|i: int| 0 <= i < items@.len() implies (#[trigger] items@[i])@.len() == m by {
            assert(views_of(items@)[i] == items@[i]@);
            assert(views_of(items@).to_set().contains(items@[i]@));
        }
    }
    let joins = join(items);
    proof {
        assert forall|i: int| 0 <= i < joins@.len() implies (#[trigger] joins@[i])@.len() > 0 by {
            assert(views_of(joins@)[i] == joins@[i]@);
            assert(views_of(joins@).contains(joins@[i]@));
        }
    }
    let mut tree = tree_of(&joins);
    let ghost e0 = tree.entries();
    let entries = data.len();
    let _next = data.count(&mut tree);
    let set = frequent_in(&tree, min_sup);
    proof {
        assert(set@ =~= Set::new(|c: Seq<usize>| joined(s@, c) && tid_support(data.tids(), c) >= min_sup)) by {
            assert forall|c: Seq<usize>| set@.contains(c) == (joined(s@, c) && tid_support(data.tids(), c) >= min_sup) by {
                if set@.contains(c) {
                    let p = choose|p: int| 0 <= p < tree.entries().len() && (#[trigger] tree.entries()[p]).0 == c && tree.entries()[p].1 >= min_sup;
                    assert(has_key(e0, c));
                    lemma_tid_support_bound(data.tids(), c);
                }
                if joined(s@, c) && tid_support(data.tids(), c) >= min_sup {
                    assert(has_key(e0, c));
                    let p = choose|p: int| 0 <= p < e0.len() && (#[trigger] e0[p]).0 == c;
                    lemma_tid_support_bound(data.tids(), c);
                    assert(tree.entries()[p].0 == c);
                }
            }
        }
    }
    set
}

/// The frequent itemsets of one pass of AprioriTID, joined without pruning.
#[derive(Debug)]
pub struct CandidateTid {
    candidates: Candidates,
}

impl CandidateTid {
    pub closed spec fn candidates_spec(&self) -> Candidates {
        self.candidates
    }

    /// Constructor.
    pub fn new(candidates: Candidates) -> (r: Self)
        ensures
            r.candidates_spec() == candidates,
    {
        Self { candidates }
    }

    /// The itemsets joined from `s` whose count over the TID entries reaches `min_sup`.
    pub fn next_i(s: &Candidates, data: &TransactionIDs, min_sup: u64) -> (r: Self)
        requires
            s.wf(),
            data.wf(),
            exists|m: nat| m >= 1 && level_of(s@, m) && #[trigger] tids_level(data.tids(), m),
        ensures
            r.candidates_spec().wf(),
            r.candidates_spec()@ == Set::new(|c: Seq<usize>| joined(s@, c) && tid_support(data.tids(), c) >= min_sup),
    {
        Self::new(next(s, data, min_sup))
    }

    /// The itemsets joined from these whose count over the TID entries reaches `min_sup`.
    pub fn next(&self, data: &TransactionIDs, min_sup: u64) -> (r: Self)
        requires
            self.candidates_spec().wf(),
            data.wf(),
            exists|m: nat| m >= 1 && level_of(self.candidates_spec()@, m) && #[trigger] tids_level(data.tids(), m),
        ensures
            r.candidates_spec().wf(),
            r.candidates_spec()@ == Set::new(|c: Seq<usize>| joined(self.candidates_spec()@, c) && tid_support(data.tids(), c) >= min_sup),
    {
        Self::next_i(&self.candidates, data, min_sup)
    }

    /// The frequent single items.
    pub fn one(data: &TransactionSet, min_sup: u64) -> (r: Self)
        requires
            data.wf(),
        ensures
            r.candidates_spec().wf(),
            r.candidates_spec()@ == frequent(data.data(), data.num_items as nat, 1, min_sup as nat),
    {
        Self::new(apriori_run_one(data, min_sup))
    }

    /// The itemsets held.
    pub fn candidates(&self) -> (r: &Candidates)
        ensures
            *r == self.candidates_spec(),
    {
        &self.candidates
    }

    /// The itemsets held, by value.
    pub fn candidates_owned(self) -> (r: Candidates)
        ensures
            r == self.candidates_spec(),
    {
        self.candidates
    }
}

} // verus!
