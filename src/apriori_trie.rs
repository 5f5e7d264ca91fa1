use vstd::prelude::*;
use crate::itemset::{is_itemset, items_below, subset_of, support, views_of, lemma_support_step, lemma_support_bound, lemma_support_antimonotone};
use crate::transaction_set::TransactionSet;
use crate::hash_tree::{has_key, keys_unique};
use crate::frequent::{frequent, joined, is_candidate, level_of, lemma_candidates_complete, lemma_candidate_shape, lemma_empty_beyond, lemma_too_large_empty};
use crate::trie::{AprioriTrie, value_of, path_frequent, frequent_paths, bumped, lemma_value_of};

verus! {

/// Every held non-empty path is an itemset over `0 .. n` of size at most `k`
/// whose counter is its support.
pub open spec fn counted_paths(e: Seq<(Seq<usize>, u64)>, d: Seq<Seq<usize>>, n: nat, k: nat) -> bool {
    forall|u: Seq<usize>| #[trigger] has_key(e, u) && u.len() > 0 ==> u.len() <= k && is_itemset(u) && items_below(u, n)
        && value_of(e, u) == support(d, u)
}

/// Up to size `k`, the held paths whose counters reach `min` all along are
/// exactly the frequent itemsets.
pub open spec fn mined_to(e: Seq<(Seq<usize>, u64)>, d: Seq<Seq<usize>>, n: nat, min: u64, k: nat) -> bool {
    forall|u: Seq<usize>| 0 < u.len() <= k ==> ((has_key(e, u) && path_frequent(e, u, min)) == #[trigger] frequent(d, n, u.len(), min as nat).contains(u))
}

/// A prefix of a frequent itemset is frequent.
proof fn lemma_prefix_frequent(d: Seq<Seq<usize>>, n: nat, min: nat, u: Seq<usize>, l: int)
    requires
        frequent(d, n, u.len(), min).contains(u),
        1 <= l <= u.len(),
    ensures
        frequent(d, n, l as nat, min).contains(u.take(l)),
{
    let w = u.take(l);
    assert forall|i: int| 0 <= i < w.len() implies u.contains(#[trigger] w[i]) by {
        assert(w[i] == u[i]);
    }
    lemma_support_antimonotone(d, u, w);
    assert forall|a: int, b: int| 0 <= a < b < w.len() implies w[a] < w[b] by {
        assert(w[a] == u[a] && w[b] == u[b]);
    }
    assert forall|a: int| 0 <= a < w.len() implies w[a] < n by {
        assert(w[a] == u[a]);
    }
}

/// After cleanup: the held non-empty paths up to size `k` are exactly the
/// frequent itemsets, and each is frequent all along its path.
proof fn lemma_after_cleanup(e0: Seq<(Seq<usize>, u64)>, e1: Seq<(Seq<usize>, u64)>, d: Seq<Seq<usize>>, n: nat, min: u64, k: nat)
    requires
        counted_paths(e0, d, n, k),
        mined_to(e0, d, n, min, k),
        forall|u: Seq<usize>| #[trigger] has_key(e1, u) == (has_key(e0, u) && (u.len() == 0 || path_frequent(e0, u, min))),
        forall|u: Seq<usize>| has_key(e1, u) ==> #[trigger] crate::trie::lookup_in(e1, u) == crate::trie::lookup_in(e0, u),
    ensures
        forall|u: Seq<usize>| 0 < u.len() <= k ==> #[trigger] has_key(e1, u) == frequent(d, n, u.len(), min as nat).contains(u),
        counted_paths(e1, d, n, k),
        mined_to(e1, d, n, min, k),
{
    assert forall|u: Seq<usize>| 0 < u.len() <= k implies #[trigger] has_key(e1, u) == frequent(d, n, u.len(), min as nat).contains(u) by {
        assert((has_key(e0, u) && path_frequent(e0, u, min)) == frequent(d, n, u.len(), min as nat).contains(u));
    }
    assert forall|u: Seq<usize>| #[trigger] has_key(e1, u) && u.len() > 0 implies u.len() <= k && is_itemset(u) && items_below(u, n) && value_of(e1, u) == support(d, u) by {
        assert(has_key(e0, u));
        assert(crate::trie::lookup_in(e1, u) == crate::trie::lookup_in(e0, u));
    }
    assert forall|u: Seq<usize>| 0 < u.len() <= k implies ((has_key(e1, u) && path_frequent(e1, u, min)) == #[trigger] frequent(d, n, u.len(), min as nat).contains(u)) by {
        if frequent(d, n, u.len(), min as nat).contains(u) {
            assert forall|l: int| 1 <= l <= u.len() implies has_key(e1, #[trigger] u.take(l)) && value_of(e1, u.take(l)) >= min by {
                lemma_prefix_frequent(d, n, min as nat, u, l);
                assert(has_key(e1, u.take(l)));
            }
        }
        if has_key(e1, u) && path_frequent(e1, u, min) {
            assert(has_key(e1, u));
        }
    }
}

/// After the join: every new node is joined from the frequent itemsets of
/// size `i - 1`, and it has size `i`.
proof fn lemma_after_join(e1: Seq<(Seq<usize>, u64)>, e2: Seq<(Seq<usize>, u64)>, d: Seq<Seq<usize>>, n: nat, min: u64, i: nat)
    requires
        i >= 2,
        keys_unique(e1),
        keys_unique(e2),
        counted_paths(e1, d, n, (i - 1) as nat),
        e2.len() >= e1.len(),
        e2.take(e1.len() as int) == e1,
        forall|p: int| e1.len() <= p < e2.len() ==> (#[trigger] e2[p]).1 == 0,
        forall|u: Seq<usize>| #[trigger] has_key(e2, u) == (has_key(e1, u) || joined(frequent(d, n, (i - 1) as nat, min as nat), u)),
    ensures
        forall|p: int| e1.len() <= p < e2.len() ==> (#[trigger] e2[p]).0.len() == i && e2[p].1 == 0,
        forall|p: int| 0 <= p < e1.len() ==> (#[trigger] e2[p]).0.len() != i,
{
    let fp = frequent(d, n, (i - 1) as nat, min as nat);
    crate::frequent::lemma_frequent_level(d, n, (i - 1) as nat, min as nat);
    assert forall|p: int| e1.len() <= p < e2.len() implies (#[trigger] e2[p]).0.len() == i && e2[p].1 == 0 by {
        let u = e2[p].0;
        assert(has_key(e2, u));
        if has_key(e1, u) {
            let q = choose|q: int| 0 <= q < e1.len() && (#[trigger] e1[q]).0 == u;
            assert(e2.take(e1.len() as int)[q] == e2[q]);
            assert(e2[q].0 != e2[p].0);
        }
        lemma_candidate_shape(fp, (i - 1) as nat, u);
    }
    assert forall|p: int| 0 <= p < e1.len() implies (#[trigger] e2[p]).0.len() != i by {
        assert(e2.take(e1.len() as int)[p] == e2[p]);
        let u = e1[p].0;
        assert(has_key(e1, u));
    }
}

/// After counting the joined itemsets, the invariant holds up to size `i`.
proof fn lemma_after_count(
    e1: Seq<(Seq<usize>, u64)>,
    e2: Seq<(Seq<usize>, u64)>,
    e3: Seq<(Seq<usize>, u64)>,
    d: Seq<Seq<usize>>,
    n: nat,
    min: u64,
    i: nat,
)
    requires
        i >= 2,
        d.len() <= usize::MAX,
        keys_unique(e1),
        keys_unique(e3),
        counted_paths(e1, d, n, (i - 1) as nat),
        forall|u: Seq<usize>| 0 < u.len() <= i - 1 ==> #[trigger] has_key(e1, u) == frequent(d, n, u.len(), min as nat).contains(u),
        e2.len() >= e1.len(),
        e2.take(e1.len() as int) == e1,
        forall|u: Seq<usize>| #[trigger] has_key(e2, u) == (has_key(e1, u) || joined(frequent(d, n, (i - 1) as nat, min as nat), u)),
        e3.len() == e2.len(),
        forall|p: int| 0 <= p < e1.len() ==> #[trigger] e3[p] == e2[p],
        forall|p: int| e1.len() <= p < e2.len() ==> #[trigger] e3[p] == (e2[p].0, support(d, e2[p].0) as u64),
        Set::new(|c: Seq<usize>| is_candidate(frequent(d, n, (i - 1) as nat, min as nat), c) && support(d, c) >= min)
            == frequent(d, n, i, min as nat),
    ensures
        counted_paths(e3, d, n, i),
        mined_to(e3, d, n, min, i),
{
    let fp = frequent(d, n, (i - 1) as nat, min as nat);
    crate::frequent::lemma_frequent_level(d, n, (i - 1) as nat, min as nat);
    assert forall|u: Seq<usize>| #[trigger] has_key(e3, u) == has_key(e2, u) by {
        if has_key(e3, u) {
            let p = choose|p: int| 0 <= p < e3.len() && (#[trigger] e3[p]).0 == u;
            if p < e1.len() {
                assert(e3[p] == e2[p]);
            } else {
                assert(e3[p].0 == e2[p].0);
            }
        }
        if has_key(e2, u) {
            let p = choose|p: int| 0 <= p < e2.len() && (#[trigger] e2[p]).0 == u;
            if p < e1.len() {
                assert(e3[p] == e2[p]);
            } else {
                assert(e3[p].0 == e2[p].0);
            }
        }
    }
    assert forall|u: Seq<usize>| has_key(e1, u) implies #[trigger] value_of(e3, u) == value_of(e1, u) by {
        let p = choose|p: int| 0 <= p < e1.len() && (#[trigger] e1[p]).0 == u;
        assert(e2.take(e1.len() as int)[p] == e1[p]);
        assert(e3[p] == e2[p]);
        lemma_value_of(e1, p);
        lemma_value_of(e3, p);
    }
    assert forall|u: Seq<usize>| #[trigger] has_key(e3, u) && u.len() > 0 implies u.len() <= i && is_itemset(u) && items_below(u, n) && value_of(e3, u) == support(d, u) by {
        if has_key(e1, u) {
            assert(value_of(e3, u) == value_of(e1, u));
            assert(u.len() <= i - 1 && value_of(e1, u) == support(d, u));
        } else {
            assert(joined(fp, u));
            lemma_candidate_shape(fp, (i - 1) as nat, u);
            let p = choose|p: int| 0 <= p < e3.len() && (#[trigger] e3[p]).0 == u;
            if p < e1.len() {
                assert(e3[p] == e2[p]);
                assert(e2.take(e1.len() as int)[p] == e1[p]);
                assert(has_key(e1, u));
            }
            lemma_value_of(e3, p);
            lemma_support_bound(d, u);
            assert(fp.contains(u.drop_last()));
            assert(fp.contains(u.subrange(0, u.len() - 2).push(u.last())));
            assert forall|a: int| 0 <= a < u.len() implies u[a] < n by {
                if a < u.len() - 1 {
                    assert(u.drop_last()[a] == u[a]);
                } else {
                    assert(u.subrange(0, u.len() - 2).push(u.last())[u.len() - 2] == u[a]);
                }
            }
        }
    }
    assert forall|u: Seq<usize>| 0 < u.len() <= i implies ((has_key(e3, u) && path_frequent(e3, u, min)) == #[trigger] frequent(d, n, u.len(), min as nat).contains(u)) by {
        if frequent(d, n, u.len(), min as nat).contains(u) {
            if u.len() < i {
                assert(has_key(e1, u));
            } else {
                assert(Set::new(|c: Seq<usize>| is_candidate(fp, c) && support(d, c) >= min).contains(u));
                assert(has_key(e2, u));
            }
            assert forall|l: int| 1 <= l <= u.len() implies has_key(e3, #[trigger] u.take(l)) && value_of(e3, u.take(l)) >= min by {
                lemma_prefix_frequent(d, n, min as nat, u, l);
                if l < i {
                    assert(has_key(e1, u.take(l)));
                    assert(value_of(e3, u.take(l)) == value_of(e1, u.take(l)));
                    assert(value_of(e1, u.take(l)) == support(d, u.take(l)));
                } else {
                    assert(u.take(l) =~= u);
                    assert(has_key(e2, u));
                    assert(has_key(e3, u));
                    assert(value_of(e3, u) == support(d, u));
                }
            }
        }
        if has_key(e3, u) && path_frequent(e3, u, min) {
            assert(u.take(u.len() as int) =~= u);
            assert(value_of(e3, u) >= min);
            assert(value_of(e3, u) == support(d, u));
        }
    }
}

/// At the end: everything held is counted, and beyond size `k` nothing is
/// frequent.
proof fn lemma_finish(e: Seq<(Seq<usize>, u64)>, d: Seq<Seq<usize>>, n: nat, min: u64, k: nat)
    requires
        counted_paths(e, d, n, k),
        mined_to(e, d, n, min, k),
        k >= n || frequent(d, n, (k + 1) as nat, min as nat) == Set::<Seq<usize>>::empty(),
        k >= 1,
    ensures
        counted_paths(e, d, n, n),
        forall|u: Seq<usize>| u.len() > 0 ==> ((has_key(e, u) && path_frequent(e, u, min)) == #[trigger] frequent(d, n, u.len(), min as nat).contains(u)),
{
    assert forall|u: Seq<usize>| #[trigger] has_key(e, u) && u.len() > 0 implies u.len() <= n && is_itemset(u) && items_below(u, n) && value_of(e, u) == support(d, u) by {
        crate::frequent::lemma_size_bound(u, n);
    }
    assert forall|u: Seq<usize>| u.len() > 0 implies ((has_key(e, u) && path_frequent(e, u, min)) == #[trigger] frequent(d, n, u.len(), min as nat).contains(u)) by {
        if u.len() > k {
            if k >= n {
                lemma_too_large_empty(d, n, u.len(), min as nat);
            } else {
                lemma_empty_beyond(d, n, (k + 1) as nat, u.len(), min as nat);
            }
            assert(!frequent(d, n, u.len(), min as nat).contains(u));
        }
    }
}

/// Runs the Apriori algorithm using a trie.
#[derive(Debug)]
pub struct AprioriT {
    min_sup: u64,
    trie: AprioriTrie,
}

impl AprioriT {
    pub closed spec fn min_sup(&self) -> u64 {
        self.min_sup
    }

    /// The trie of the run.
    pub closed spec fn trie_spec(&self) -> AprioriTrie {
        self.trie
    }

    /// Constructor.
    pub fn new(min_sup: u64) -> (r: Self)
        ensures
            r.min_sup() == min_sup,
            r.trie_spec().wf(),
            r.trie_spec().size_spec() == 0,
            r.trie_spec().entries() == seq![(Seq::<usize>::empty(), u64::MAX)],
    {
        Self { min_sup, trie: AprioriTrie::new() }
    }

    /// Counts every transaction into the nodes at positions `from` on, all
    /// of size `depth`; the earlier nodes, all shorter, keep their counters.
    fn count_all(&mut self, transactions: &Vec<Vec<usize>>, depth: usize, from: usize)
        requires
            old(self).trie.wf(),
            forall|x: int| 0 <= x < transactions@.len() ==> is_itemset(#[trigger] views_of(transactions@)[x]),
            from <= old(self).trie.entries().len(),
            forall|p: int| from <= p < old(self).trie.entries().len() ==> (#[trigger] old(self).trie.entries()[p]).0.len() == depth && old(self).trie.entries()[p].1 == 0,
            forall|p: int| 0 <= p < from ==> (#[trigger] old(self).trie.entries()[p]).0.len() != depth,
        ensures
            final(self).trie.wf(),
            final(self).min_sup == old(self).min_sup,
            final(self).trie.entries().len() == old(self).trie.entries().len(),
            forall|p: int| 0 <= p < from ==> #[trigger] final(self).trie.entries()[p] == old(self).trie.entries()[p],
            forall|p: int| from <= p < old(self).trie.entries().len() ==> #[trigger] final(self).trie.entries()[p] == (
                old(self).trie.entries()[p].0,
                support(views_of(transactions@), old(self).trie.entries()[p].0) as u64,
            ),
    {
        let ghost d = views_of(transactions@);
        let ghost e2 = self.trie.entries();
        let nd = transactions.len();
        let mut j: usize = 0;
        while j < nd
            invariant
                self.trie.wf(),
                self.min_sup == old(self).min_sup,
                e2 == old(self).trie.entries(),
                d == views_of(transactions@),
                nd == d.len(),
                forall|x: int| 0 <= x < transactions@.len() ==> is_itemset(#[trigger] views_of(transactions@)[x]),
                0 <= j <= nd,
                from <= e2.len(),
                self.trie.entries().len() == e2.len(),
                forall|p: int| from <= p < e2.len() ==> (#[trigger] e2[p]).0.len() == depth,
                forall|p: int| 0 <= p < from ==> (#[trigger] e2[p]).0.len() != depth,
                forall|p: int| 0 <= p < from ==> #[trigger] self.trie.entries()[p] == e2[p],
                forall|p: int| from <= p < e2.len() ==> #[trigger] self.trie.entries()[p] == (e2[p].0, support(d.take(j as int), e2[p].0) as u64),
            decreases nd - j,
        {
            proof {
                assert(d[j as int] == transactions@[j as int]@);
                assert forall|p: int| from <= p < e2.len() implies #[trigger] self.trie.entries()[p] == (e2[p].0, support(d.take(j as int), e2[p].0) as u64) by {}
            }
            let ghost before = self.trie.entries();
            self.trie.transaction_update(&transactions[j], depth);
            proof {
                let e = self.trie.entries();
                assert forall|p: int| from <= p < e2.len() implies #[trigger] e[p] == (e2[p].0, support(d.take(j as int + 1), e2[p].0) as u64) by {
                    assert(before[p] == (e2[p].0, support(d.take(j as int), e2[p].0) as u64));
                    lemma_support_step(d, e2[p].0, j as int);
                    lemma_support_bound(d.take(j as int), e2[p].0);
                }
                assert forall|p: int| 0 <= p < from implies #[trigger] e[p] == e2[p] by {
                    assert(before[p] == e2[p]);
                }
            }
            j = j + 1;
        }
        proof {
            assert(d.take(nd as int) =~= d);
        }
    }

    /// One pass of size `i`: cleans up, joins, and counts the joined
    /// itemsets. Returns whether the join added any.
    #[verifier::rlimit(60)]
    fn pass(&mut self, transactions: &Vec<Vec<usize>>, n: usize, i: usize) -> (grew: bool)
        requires
            old(self).trie.wf(),
            i >= 2,
            forall|x: int| 0 <= x < transactions@.len() ==> is_itemset(#[trigger] views_of(transactions@)[x]),
            counted_paths(old(self).trie.entries(), views_of(transactions@), n as nat, (i - 1) as nat),
            mined_to(old(self).trie.entries(), views_of(transactions@), n as nat, old(self).min_sup, (i - 1) as nat),
        ensures
            final(self).trie.wf(),
            final(self).min_sup == old(self).min_sup,
            grew ==> counted_paths(final(self).trie.entries(), views_of(transactions@), n as nat, i as nat),
            grew ==> mined_to(final(self).trie.entries(), views_of(transactions@), n as nat, final(self).min_sup, i as nat),
            !grew ==> counted_paths(final(self).trie.entries(), views_of(transactions@), n as nat, (i - 1) as nat),
            !grew ==> mined_to(final(self).trie.entries(), views_of(transactions@), n as nat, final(self).min_sup, (i - 1) as nat),
            !grew ==> frequent(views_of(transactions@), n as nat, i as nat, final(self).min_sup as nat) == Set::<Seq<usize>>::empty(),
    {
        let ghost d = views_of(transactions@);
        let ghost nn = n as nat;
        let min = self.min_sup;
        let ghost e0 = self.trie.entries();
        self.trie.cleaup(min);
        let ghost e1 = self.trie.entries();
        let nd = transactions.len();
        proof {
            self.trie.lemma_shape();
            assert forall|u: Seq<usize>| has_key(e1, u) implies #[trigger] crate::trie::lookup_in(e1, u) == crate::trie::lookup_in(e0, u) by {
                assert(self.trie.lookup(u) == crate::trie::lookup_in(e0, u));
            }
            lemma_after_cleanup(e0, e1, d, nn, min, (i - 1) as nat);
        }
        let len1 = self.trie.node_count();
        self.trie.join(i, min);
        let ghost e2 = self.trie.entries();
        let ghost fp = frequent(d, nn, (i - 1) as nat, min as nat);
        proof {
            self.trie.lemma_shape();
            assert(frequent_paths(e1, (i - 1) as nat, min) =~= fp) by {
                assert forall|u: Seq<usize>| frequent_paths(e1, (i - 1) as nat, min).contains(u) == fp.contains(u) by {
                    if fp.contains(u) {
                        assert(has_key(e1, u));
                    }
                }
            }
            crate::frequent::lemma_frequent_level(d, nn, (i - 1) as nat, min as nat);
            lemma_candidates_complete(d, nn, i as nat, min as nat);
            lemma_after_join(e1, e2, d, nn, min, i as nat);
        }
        if self.trie.node_count() <= len1 {
            proof {
                assert(e2 =~= e1) by {
                    assert(e2.take(e1.len() as int) == e1);
                }
                assert forall|u: Seq<usize>| !#[trigger] frequent(d, nn, i as nat, min as nat).contains(u) by {
                    if frequent(d, nn, i as nat, min as nat).contains(u) {
                        assert(Set::new(|c: Seq<usize>| is_candidate(fp, c) && support(d, c) >= min).contains(u));
                        assert(joined(fp, u));
                        assert(has_key(e2, u));
                    }
                }
                assert(frequent(d, nn, i as nat, min as nat) =~= Set::<Seq<usize>>::empty());
            }
            return false;
        }
        self.count_all(transactions, i, len1);
        proof {
            self.trie.lemma_shape();
            lemma_after_count(e1, e2, self.trie.entries(), d, nn, min, i as nat);
        }
        true
    }

    /// Runs the algorithm: counts the items, then cleans up, joins and counts
    /// pass after pass until a join adds nothing. Afterwards a non-empty
    /// itemset is held with counters reaching `min_sup` all along its path
    /// exactly when it is frequent, and every held itemset holds its support.
    pub fn run(&mut self, t: &TransactionSet)
        requires
            old(self).trie_spec().entries() == seq![(Seq::<usize>::empty(), u64::MAX)],
            old(self).trie_spec().wf(),
            t.wf(),
            t.num_items < usize::MAX,
        ensures
            final(self).trie_spec().wf(),
            final(self).min_sup() == old(self).min_sup(),
            counted_paths(final(self).trie_spec().entries(), t.data(), t.num_items as nat, t.num_items as nat),
            forall|u: Seq<usize>| u.len() > 0 ==> ((has_key(final(self).trie_spec().entries(), u)
                && path_frequent(final(self).trie_spec().entries(), u, final(self).min_sup()))
                == #[trigger] frequent(t.data(), t.num_items as nat, u.len(), final(self).min_sup() as nat).contains(u)),
    {
        let ghost d = t.data();
        let ghost n = t.num_items as nat;
        let min = self.min_sup;
        let ghost e00 = self.trie.entries();
        proof {
            assert forall|u: Seq<usize>| #[trigger] has_key(e00, u) == (u.len() == 0 || (u.len() == 1 && u[0] < 0)) by {
                if u.len() == 0 {
                    assert(u =~= Seq::<usize>::empty());
                    assert(e00[0].0 == u);
                }
            }
        }
        let mut x: usize = 0;
        while x < t.num_items
            invariant
                self.trie.wf(),
                self.min_sup == min,
                min == old(self).min_sup,
                0 <= x <= t.num_items,
                self.trie.entries()[0] == (Seq::<usize>::empty(), u64::MAX),
                forall|u: Seq<usize>| #[trigger] has_key(self.trie.entries(), u) == (u.len() == 0 || (u.len() == 1 && u[0] < x)),
                forall|p: int| 1 <= p < self.trie.entries().len() ==> (#[trigger] self.trie.entries()[p]).1 == 0 && self.trie.entries()[p].0.len() == 1,
            decreases t.num_items - x,
        {
            let mut item: Vec<usize> = Vec::new();
            item.push(x);
            let ghost before = self.trie.entries();
            proof {
                self.trie.lemma_shape();
                assert(item@ =~= seq![x]);
                assert(is_itemset(item@));
            }
            self.trie.add(&item);
            proof {
                let e = self.trie.entries();
                assert(e.take(before.len() as int)[0] == e[0]);
                assert forall|u: Seq<usize>| #[trigger] has_key(e, u) == (u.len() == 0 || (u.len() == 1 && u[0] < x + 1)) by {
                    if crate::trie::is_prefix_of(u, item@) {
                        assert(u =~= item@);
                    }
                    if u.len() == 1 && u[0] == x {
                        assert(u =~= item@.take(1));
                        assert(crate::trie::is_prefix_of(u, item@));
                    }
                }
                assert forall|p: int| 1 <= p < e.len() implies (#[trigger] e[p]).1 == 0 && e[p].0.len() == 1 by {
                    if p < before.len() {
                        assert(e.take(before.len() as int)[p] == e[p]);
                    } else {
                        assert(has_key(e, e[p].0));
                        self.trie.lemma_shape();
                        assert(e[p].0.len() != 0) by {
                            if e[p].0.len() == 0 {
                                assert(e[0].0 == e[p].0);
                            }
                        }
                    }
                }
            }
            x = x + 1;
        }
        let transactions = t.iter();
        let nd = transactions.len();
        let ghost e1 = self.trie.entries();
        proof {
            self.trie.lemma_shape();
            assert forall|p: int| 1 <= p < e1.len() implies (#[trigger] e1[p]).0.len() == 1 && e1[p].1 == 0 by {}
            assert forall|p: int| 0 <= p < 1 implies (#[trigger] e1[p]).0.len() != 1 by {}
            assert forall|q: int| 0 <= q < transactions@.len() implies is_itemset(#[trigger] views_of(transactions@)[q]) by {
                assert(d[q] == views_of(transactions@)[q]);
            }
        }
        self.count_all(transactions, 1, 1);
        proof {
            let e = self.trie.entries();
            self.trie.lemma_shape();
            assert forall|u: Seq<usize>| #[trigger] has_key(e, u) == has_key(e1, u) by {
                if has_key(e, u) {
                    let p = choose|p: int| 0 <= p < e.len() && (#[trigger] e[p]).0 == u;
                    if p >= 1 {
                        assert(e[p].0 == e1[p].0);
                    }
                    assert(e1[p].0 == u);
                }
                if has_key(e1, u) {
                    let p = choose|p: int| 0 <= p < e1.len() && (#[trigger] e1[p]).0 == u;
                    if p >= 1 {
                        assert(e[p].0 == e1[p].0);
                    }
                    assert(e[p].0 == u);
                }
            }
            assert forall|u: Seq<usize>| #[trigger] has_key(e, u) && u.len() > 0 implies u.len() <= 1 && is_itemset(u) && items_below(u, n) && value_of(e, u) == support(d, u) by {
                let p = choose|p: int| 0 <= p < e.len() && (#[trigger] e[p]).0 == u;
                lemma_value_of(e, p);
                assert(p != 0);
                lemma_support_bound(d, u);
                assert(has_key(e1, u));
            }
            assert forall|u: Seq<usize>| 0 < u.len() <= 1 implies ((has_key(e, u) && path_frequent(e, u, min)) == #[trigger] frequent(d, n, u.len(), min as nat).contains(u)) by {
                assert(u.take(1) =~= u);
                if has_key(e, u) {
                    assert(has_key(e1, u));
                    assert(items_below(u, n));
                }
                if frequent(d, n, u.len(), min as nat).contains(u) {
                    assert(has_key(e1, u));
                }
            }
        }
        let mut i: usize = 2;
        while i <= t.num_items
            invariant
                self.trie.wf(),
                self.min_sup == min,
                min == old(self).min_sup,
                t.wf(),
                d == t.data(),
                n == t.num_items,
                t.num_items < usize::MAX,
                views_of(transactions@) == d,
                forall|q: int| 0 <= q < transactions@.len() ==> is_itemset(#[trigger] views_of(transactions@)[q]),
                i >= 2,
                i - 1 <= n || i == 2,
                counted_paths(self.trie.entries(), d, n, (i - 1) as nat),
                mined_to(self.trie.entries(), d, n, min, (i - 1) as nat),
            decreases t.num_items + 1 - i,
        {
            if !self.pass(transactions, t.num_items, i) {
                proof {
                    lemma_finish(self.trie.entries(), d, n, min, (i - 1) as nat);
                }
                return;
            }
            i = i + 1;
        }
        proof {
            lemma_finish(self.trie.entries(), d, n, min, (i - 1) as nat);
        }
    }

    /// The trie of the run.
    pub fn trie(self) -> (r: AprioriTrie)
        ensures
            r == self.trie_spec(),
    {
        self.trie
    }
}

} // verus!
