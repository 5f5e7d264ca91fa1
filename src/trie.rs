use vstd::prelude::*;
use crate::itemset::{is_itemset, subset_of, is_subset, itemset_eq, copy_itemset, views_of};
use crate::hash_tree::{has_key, keys_unique, entries_of, entry_view};
use crate::frequent::joined;
use crate::candidates_func::join;

verus! {

/// The counter of the node spelled by `k` in `e`.
pub open spec fn value_of(e: Seq<(Seq<usize>, u64)>, k: Seq<usize>) -> u64 {
    e[choose|p: int| 0 <= p < e.len() && (#[trigger] e[p]).0 == k].1
}

/// The counter of the node spelled by `k`, if there is one.
pub open spec fn lookup_in(e: Seq<(Seq<usize>, u64)>, k: Seq<usize>) -> Option<u64> {
    if has_key(e, k) {
        Some(value_of(e, k))
    } else {
        None
    }
}

/// Every non-empty prefix of `u` is a node whose counter reaches `sup`.
pub open spec fn path_frequent(e: Seq<(Seq<usize>, u64)>, u: Seq<usize>, sup: u64) -> bool {
    forall|l: int| 1 <= l <= u.len() ==> has_key(e, #[trigger] u.take(l)) && value_of(e, u.take(l)) >= sup
}

/// `u` is a non-empty prefix of `v`.
pub open spec fn is_prefix_of(u: Seq<usize>, v: Seq<usize>) -> bool {
    1 <= u.len() <= v.len() && u == v.take(u.len() as int)
}

/// `a + b`, or the largest `usize` where that does not fit.
pub open spec fn sat_add(a: nat, b: nat) -> nat {
    if a + b <= usize::MAX {
        a + b
    } else {
        usize::MAX as nat
    }
}

/// The held paths of size `k` whose prefixes all reach `sup`.
pub open spec fn frequent_paths(e: Seq<(Seq<usize>, u64)>, k: nat, sup: u64) -> Set<Seq<usize>> {
    Set::new(|u: Seq<usize>| has_key(e, u) && u.len() == k && path_frequent(e, u, sup))
}

/// One more, unless the counter is full.
pub open spec fn bumped(c: u64) -> u64 {
    if c < u64::MAX {
        (c + 1) as u64
    } else {
        c
    }
}

pub proof fn lemma_value_of(e: Seq<(Seq<usize>, u64)>, p: int)
    requires
        keys_unique(e),
        0 <= p < e.len(),
    ensures
        value_of(e, e[p].0) == e[p].1,
{
    let q = choose|q: int| 0 <= q < e.len() && (#[trigger] e[q]).0 == e[p].0;
    if q < p {
        assert(e[q].0 != e[p].0);
    } else if p < q {
        assert(e[p].0 != e[q].0);
    }
}

/// Paths are unique itemsets, the root comes first, and every node's
/// parent is held.
#[verifier::opaque]
spec fn nodes_shaped(e: Seq<(Seq<usize>, u64)>) -> bool {
    &&& e.len() >= 1
    &&& e[0].0 == Seq::<usize>::empty()
    &&& keys_unique(e)
    &&& forall|p: int| 0 <= p < e.len() ==> is_itemset((#[trigger] e[p]).0)
    &&& forall|p: int| 0 <= p < e.len() && (#[trigger] e[p]).0.len() > 0 ==> has_key(e, e[p].0.drop_last())
}

/// The first `l` items of `v`.
fn take_prefix(v: &Vec<usize>, l: usize) -> (r: Vec<usize>)
    requires
        l <= v@.len(),
    ensures
        r@ == v@.take(l as int),
{
    let mut prefix: Vec<usize> = Vec::new();
    let mut j: usize = 0;
    while j < l
        invariant
            j <= l <= v@.len(),
            prefix@ =~= v@.take(j as int),
        decreases l - j,
    {
        prefix.push(v[j]);
        j = j + 1;
    }
    prefix
}

/// A trie of itemsets with counters, for counting in Apriori. Its nodes are
/// held as a list, each with the path of items that spells it; the root
/// (the empty path) comes first, and the parent of every node is held.
#[derive(Debug)]
pub struct AprioriTrie {
    nodes: Vec<(Vec<usize>, u64)>,
    /// Number of itemsets added.
    size: usize,
}

impl AprioriTrie {
    /// The nodes: each path with its counter.
    pub closed spec fn entries(&self) -> Seq<(Seq<usize>, u64)> {
        entries_of(self.nodes@)
    }

    /// The counter of `v`, if the trie holds it. The empty itemset is the root.
    pub open spec fn lookup(&self, v: Seq<usize>) -> Option<u64> {
        lookup_in(self.entries(), v)
    }

    /// Number of itemsets added.
    pub closed spec fn size_spec(&self) -> nat {
        self.size as nat
    }

    /// The nodes are well shaped.
    closed spec fn shape_ok(&self) -> bool {
        nodes_shaped(self.entries())
    }

    /// The nodes are well shaped.
    pub closed spec fn wf(&self) -> bool {
        self.shape_ok()
    }

    /// Two node lists with the same paths in the same places are shaped alike.
    proof fn lemma_same_paths(a: Seq<(Seq<usize>, u64)>, b: Seq<(Seq<usize>, u64)>)
        requires
            nodes_shaped(a),
            a.len() == b.len(),
            forall|p: int| 0 <= p < a.len() ==> (#[trigger] a[p]).0 == b[p].0,
        ensures
            nodes_shaped(b),
            forall|u: Seq<usize>| #[trigger] has_key(b, u) == has_key(a, u),
    {
        reveal(nodes_shaped);
        assert forall|u: Seq<usize>| #[trigger] has_key(b, u) == has_key(a, u) by {
            if has_key(a, u) {
                let p = choose|p: int| 0 <= p < a.len() && (#[trigger] a[p]).0 == u;
                assert(b[p].0 == u);
            }
            if has_key(b, u) {
                let p = choose|p: int| 0 <= p < b.len() && (#[trigger] b[p]).0 == u;
                assert(a[p].0 == u);
            }
        }
        assert forall|x: int, y: int| 0 <= x < y < b.len() implies (#[trigger] b[x]).0 != (#[trigger] b[y]).0 by {
            assert(a[x].0 != a[y].0);
        }
        assert forall|p: int| 0 <= p < b.len() implies is_itemset((#[trigger] b[p]).0) by {
            assert(a[p].0 == b[p].0);
        }
        assert forall|p: int| 0 <= p < b.len() && (#[trigger] b[p]).0.len() > 0 implies has_key(b, b[p].0.drop_last()) by {
            assert(a[p].0 == b[p].0);
            assert(has_key(a, a[p].0.drop_last()));
        }
    }

    /// Sets the counter of the node at position `p`.
    fn set_count(&mut self, p: usize, c: u64)
        requires
            old(self).shape_ok(),
            p < old(self).entries().len(),
        ensures
            final(self).shape_ok(),
            final(self).size == old(self).size,
            final(self).entries() == old(self).entries().update(p as int, (old(self).entries()[p as int].0, c)),
    {
        let ghost before = self.entries();
        let key = copy_itemset(&self.nodes[p].0);
        self.nodes.set(p, (key, c));
        proof {
            assert(self.entries() =~= before.update(p as int, (before[p as int].0, c)));
            Self::lemma_same_paths(before, self.entries());
        }
    }

    /// Stores the counter `n` for `v`, adding `v` and its prefixes first if
    /// they are missing.
    pub fn insert(&mut self, v: &Vec<usize>, n: u64)
        requires
            old(self).wf(),
            is_itemset(v@),
        ensures
            final(self).wf(),
            final(self).lookup(v@) == Some(n),
            final(self).size_spec() == sat_add(old(self).size_spec(), if old(self).lookup(v@).is_none() { 1nat } else { 0nat }),
            forall|u: Seq<usize>| #[trigger] has_key(final(self).entries(), u) == (has_key(old(self).entries(), u) || is_prefix_of(u, v@)),
            forall|u: Seq<usize>| u != v@ && has_key(old(self).entries(), u) ==> #[trigger] final(self).lookup(u) == old(self).lookup(u),
            forall|u: Seq<usize>| u != v@ && !has_key(old(self).entries(), u) && is_prefix_of(u, v@) ==> #[trigger] final(self).lookup(u) == Some(0u64),
    {
        let ghost e0 = self.entries();
        self.add(v);
        let ghost e1 = self.entries();
        proof {
            self.lemma_shape();
            if v@.len() == 0 {
                assert(e1[0].0 == v@);
            } else {
                assert(v@.take(v@.len() as int) =~= v@);
            }
        }
        match self.position(v) {
            Some(p) => {
                self.set_count(p, n);
                proof {
                    let e2 = self.entries();
                    self.lemma_shape();
                    lemma_value_of(e2, p as int);
                    old(self).lemma_shape();
                    assert forall|u: Seq<usize>| u != v@ && has_key(e1, u) implies #[trigger] lookup_in(e2, u) == lookup_in(e1, u) by {
                        let q = choose|q: int| 0 <= q < e1.len() && (#[trigger] e1[q]).0 == u;
                        lemma_value_of(e1, q);
                        lemma_value_of(e2, q);
                    }
                    assert forall|u: Seq<usize>| u != v@ && has_key(e0, u) implies #[trigger] lookup_in(e1, u) == lookup_in(e0, u) by {
                        let q = choose|q: int| 0 <= q < e0.len() && (#[trigger] e0[q]).0 == u;
                        lemma_value_of(e0, q);
                        assert(e1.take(e0.len() as int)[q] == e1[q]);
                        lemma_value_of(e1, q);
                    }
                    assert forall|u: Seq<usize>| u != v@ && !has_key(e0, u) && is_prefix_of(u, v@) implies #[trigger] lookup_in(e1, u) == Some(0u64) by {
                        assert(has_key(e1, u));
                        let q = choose|q: int| 0 <= q < e1.len() && (#[trigger] e1[q]).0 == u;
                        if q < e0.len() {
                            assert(e1.take(e0.len() as int)[q] == e0[q]);
                        }
                        lemma_value_of(e1, q);
                    }
                    assert forall|u: Seq<usize>| #[trigger] has_key(e2, u) == has_key(e1, u) by {
                        if has_key(e1, u) {
                            let q = choose|q: int| 0 <= q < e1.len() && (#[trigger] e1[q]).0 == u;
                            assert(e2[q].0 == u);
                        }
                        if has_key(e2, u) {
                            let q = choose|q: int| 0 <= q < e2.len() && (#[trigger] e2[q]).0 == u;
                            assert(e1[q].0 == u);
                        }
                    }
                }
            },
            None => {},
        }
    }

    /// Counts the transaction `v` into the itemsets of size `depth`: each
    /// held one inside `v` gains one.
    pub fn transaction_update(&mut self, v: &Vec<usize>, depth: usize)
        requires
            old(self).wf(),
            is_itemset(v@),
        ensures
            final(self).wf(),
            final(self).size_spec() == old(self).size_spec(),
            final(self).entries().len() == old(self).entries().len(),
            forall|p: int| 0 <= p < old(self).entries().len() ==> #[trigger] final(self).entries()[p] == (
                old(self).entries()[p].0,
                if old(self).entries()[p].0.len() == depth && subset_of(old(self).entries()[p].0, v@) {
                    bumped(old(self).entries()[p].1)
                } else {
                    old(self).entries()[p].1
                },
            ),
    {
        let ghost e0 = self.entries();
        proof {
            self.lemma_shape();
        }
        let mut p: usize = 0;
        while p < self.nodes.len()
            invariant
                self.shape_ok(),
                self.size == old(self).size,
                e0 == old(self).entries(),
                is_itemset(v@),
                self.entries().len() == e0.len(),
                0 <= p <= e0.len(),
                forall|q: int| 0 <= q < e0.len() ==> is_itemset((#[trigger] e0[q]).0),
                forall|q: int| 0 <= q < e0.len() ==> #[trigger] self.entries()[q] == (
                    e0[q].0,
                    if q < p && e0[q].0.len() == depth && subset_of(e0[q].0, v@) {
                        bumped(e0[q].1)
                    } else {
                        e0[q].1
                    },
                ),
            decreases e0.len() - p,
        {
            assert(self.entries()[p as int] == entry_view(self.nodes@[p as int]));
            if self.nodes[p].0.len() == depth && is_subset(&self.nodes[p].0, v) {
                let c = self.nodes[p].1;
                let next = if c < u64::MAX {
                    c + 1
                } else {
                    c
                };
                self.set_count(p, next);
            }
            p = p + 1;
        }
    }

    /// Tests whether every non-empty prefix of `u` is held with a counter
    /// reaching `sup`.
    pub fn is_path_frequent(&self, u: &Vec<usize>, sup: u64) -> (r: bool)
        requires
            self.wf(),
        ensures
            r == path_frequent(self.entries(), u@, sup),
    {
        proof {
            self.lemma_shape();
        }
        let mut i: usize = 0;
        while i < u.len()
            invariant
                self.shape_ok(),
                0 <= i <= u@.len(),
                forall|l: int| 1 <= l <= i ==> has_key(self.entries(), #[trigger] u@.take(l)) && value_of(self.entries(), u@.take(l)) >= sup,
            decreases u.len() - i,
        {
            let prefix = take_prefix(u, i + 1);
            match self.position(&prefix) {
                Some(p) => {
                    proof {
                        self.lemma_shape();
                        lemma_value_of(self.entries(), p as int);
                    }
                    assert(self.entries()[p as int] == entry_view(self.nodes@[p as int]));
                    if self.nodes[p].1 < sup {
                        return false;
                    }
                },
                None => {
                    return false;
                },
            }
            i = i + 1;
        }
        true
    }

    /// Every held itemset whose prefixes' counters, and its own, reach `sup`.
    pub fn for_each(&self, sup: u64) -> (r: Vec<Vec<usize>>)
        requires
            self.wf(),
        ensures
            views_of(r@).no_duplicates(),
            forall|u: Seq<usize>| #[trigger] views_of(r@).contains(u) == (u.len() > 0 && path_frequent(self.entries(), u, sup)),
    {
        let e = Ghost(self.entries());
        proof {
            self.lemma_shape();
        }
        let mut out: Vec<Vec<usize>> = Vec::new();
        let mut p: usize = 0;
        while p < self.nodes.len()
            invariant
                self.shape_ok(),
                e@ == self.entries(),
                keys_unique(e@),
                0 <= p <= e@.len(),
                views_of(out@).no_duplicates(),
                forall|u: Seq<usize>| #[trigger] views_of(out@).contains(u) == (exists|q: int| 0 <= q < p && (#[trigger] e@[q]).0 == u && u.len() > 0 && path_frequent(e@, u, sup)),
            decreases e@.len() - p,
        {
            assert(e@[p as int] == entry_view(self.nodes@[p as int]));
            let key = &self.nodes[p].0;
            if key.len() > 0 && self.is_path_frequent(key, sup) {
                let ghost before = views_of(out@);
                out.push(copy_itemset(key));
                proof {
                    assert(views_of(out@) =~= before.push(key@));
                    crate::itemset::lemma_push_contains(before, key@);
                    assert(!before.contains(key@)) by {
                        if before.contains(key@) {
                            let q = choose|q: int| 0 <= q < p && (#[trigger] e@[q]).0 == key@ && key@.len() > 0 && path_frequent(e@, key@, sup);
                            assert(e@[q].0 != e@[p as int].0);
                        }
                    }
                }
            }
            p = p + 1;
        }
        proof {
            assert forall|u: Seq<usize>| #[trigger] views_of(out@).contains(u) == (u.len() > 0 && path_frequent(e@, u, sup)) by {
                if u.len() > 0 && path_frequent(e@, u, sup) {
                    assert(u.take(u.len() as int) =~= u);
                    assert(has_key(e@, u.take(u.len() as int)));
                    let q = choose|q: int| 0 <= q < e@.len() && (#[trigger] e@[q]).0 == u;
                }
            }
        }
        out
    }

    /// The join step for pass `i`: adds, with counter 0, every itemset joined
    /// from two held itemsets of size `i - 1` that share all items but the
    /// last and whose prefixes' counters, and their own, reach `sup`.
    pub fn join(&mut self, i: usize, sup: u64)
        requires
            old(self).wf(),
            i >= 2,
        ensures
            final(self).wf(),
            final(self).entries().len() >= old(self).entries().len(),
            final(self).entries().take(old(self).entries().len() as int) == old(self).entries(),
            forall|p: int| old(self).entries().len() <= p < final(self).entries().len() ==> (#[trigger] final(self).entries()[p]).1 == 0,
            forall|u: Seq<usize>| #[trigger] has_key(final(self).entries(), u) == (has_key(old(self).entries(), u)
                || joined(frequent_paths(old(self).entries(), (i - 1) as nat, sup), u)),
            final(self).size_spec() == sat_add(old(self).size_spec(), (final(self).entries().len() - old(self).entries().len()) as nat),
    {
        let ghost e0 = self.entries();
        let ghost pf = frequent_paths(e0, (i - 1) as nat, sup);
        proof {
            self.lemma_shape();
        }
        let mut level: Vec<Vec<usize>> = Vec::new();
        let mut p: usize = 0;
        while p < self.nodes.len()
            invariant
                self.shape_ok(),
                e0 == self.entries(),
                keys_unique(e0),
                forall|q: int| 0 <= q < e0.len() ==> is_itemset((#[trigger] e0[q]).0),
                0 <= p <= e0.len(),
                i >= 2,
                views_of(level@).no_duplicates(),
                forall|x: int| 0 <= x < level@.len() ==> (#[trigger] level@[x])@.len() == i - 1,
                forall|u: Seq<usize>| #[trigger] views_of(level@).contains(u) == (exists|q: int| 0 <= q < p && (#[trigger] e0[q]).0 == u && u.len() == i - 1 && path_frequent(e0, u, sup)),
            decreases e0.len() - p,
        {
            assert(e0[p as int] == entry_view(self.nodes@[p as int]));
            let key = &self.nodes[p].0;
            if key.len() == i - 1 && self.is_path_frequent(key, sup) {
                let ghost before = views_of(level@);
                level.push(copy_itemset(key));
                proof {
                    assert(views_of(level@) =~= before.push(key@));
                    crate::itemset::lemma_push_contains(before, key@);
                    assert(!before.contains(key@)) by {
                        if before.contains(key@) {
                            let q = choose|q: int| 0 <= q < p && (#[trigger] e0[q]).0 == key@ && key@.len() == i - 1 && path_frequent(e0, key@, sup);
                            assert(e0[q].0 != e0[p as int].0);
                        }
                    }
                }
            }
            p = p + 1;
        }
        proof {
            assert(views_of(level@).to_set() =~= pf) by {
                assert forall|u: Seq<usize>| views_of(level@).to_set().contains(u) == pf.contains(u) by {
                    if pf.contains(u) {
                        let q = choose|q: int| 0 <= q < e0.len() && (#[trigger] e0[q]).0 == u;
                    }
                }
            }
            assert forall|x: int| 0 <= x < level@.len() implies (#[trigger] level@[x])@.len() == level@[0]@.len() by {}
            assert forall|s: Seq<usize>| #[trigger] pf.contains(s) implies is_itemset(s) && s.len() == (i - 1) as nat by {
                let q = choose|q: int| 0 <= q < e0.len() && (#[trigger] e0[q]).0 == s;
            }
        }
        let joins = join(&level);
        let len0 = self.nodes.len();
        let mut q: usize = 0;
        while q < joins.len()
            invariant
                self.shape_ok(),
                len0 == e0.len(),
                e0 == old(self).entries(),
                pf == frequent_paths(e0, (i - 1) as nat, sup),
                crate::frequent::level_of(pf, (i - 1) as nat),
                forall|c: Seq<usize>| #[trigger] views_of(joins@).contains(c) == joined(pf, c),
                0 <= q <= joins@.len(),
                self.entries().len() >= len0,
                self.entries().take(len0 as int) == e0,
                forall|x: int| len0 <= x < self.entries().len() ==> (#[trigger] self.entries()[x]).1 == 0,
                forall|u: Seq<usize>| #[trigger] has_key(self.entries(), u) == (has_key(e0, u) || (exists|x: int| 0 <= x < q && views_of(joins@)[x] == u)),
                self.size == old(self).size,
            decreases joins.len() - q,
        {
            let c = &joins[q];
            let ghost cv = views_of(joins@)[q as int];
            assert(c@ == cv);
            assert(views_of(joins@).contains(cv));
            let ghost before = self.entries();
            proof {
                crate::frequent::lemma_candidate_shape(pf, (i - 1) as nat, cv);
                assert(pf.contains(cv.drop_last()));
                let r = choose|r: int| 0 <= r < e0.len() && (#[trigger] e0[r]).0 == cv.drop_last();
                assert(self.entries().take(len0 as int)[r] == e0[r]);
                assert(has_key(before, cv.drop_last()));
            }
            self.ensure_node(copy_itemset(c));
            proof {
                let e = self.entries();
                if e != before {
                    assert(e.take(len0 as int) =~= before.take(len0 as int));
                }
                assert forall|x: int| len0 <= x < e.len() implies (#[trigger] e[x]).1 == 0 by {
                    if x < before.len() {
                        assert(e[x] == before[x]);
                    }
                }
                assert forall|u: Seq<usize>| #[trigger] has_key(e, u) == (has_key(e0, u) || (exists|x: int| 0 <= x < q + 1 && views_of(joins@)[x] == u)) by {
                    if u == cv {
                        assert(views_of(joins@)[q as int] == u);
                    }
                    if exists|x: int| 0 <= x < q + 1 && views_of(joins@)[x] == u {
                        let x = choose|x: int| 0 <= x < q + 1 && views_of(joins@)[x] == u;
                        if x < q {
                            assert(has_key(before, u));
                        }
                    }
                }
            }
            q = q + 1;
        }
        proof {
            assert forall|u: Seq<usize>| #[trigger] has_key(self.entries(), u) == (has_key(e0, u) || joined(pf, u)) by {
                if joined(pf, u) {
                    assert(views_of(joins@).contains(u));
                    let x = choose|x: int| 0 <= x < joins@.len() && views_of(joins@)[x] == u;
                }
                if exists|x: int| 0 <= x < q && views_of(joins@)[x] == u {
                    let x = choose|x: int| 0 <= x < q && views_of(joins@)[x] == u;
                    assert(views_of(joins@).contains(u));
                }
            }
        }
        let added = self.nodes.len() - len0;
        self.size = if self.size <= usize::MAX - added {
            self.size + added
        } else {
            usize::MAX
        };
    }

    /// Removes every node below which, or at which, a counter is below `sup`;
    /// the root stays.
    pub fn cleaup(&mut self, sup: u64)
        requires
            old(self).wf(),
        ensures
            final(self).wf(),
            final(self).size_spec() == old(self).size_spec(),
            forall|u: Seq<usize>| #[trigger] has_key(final(self).entries(), u) == (has_key(old(self).entries(), u)
                && (u.len() == 0 || path_frequent(old(self).entries(), u, sup))),
            forall|u: Seq<usize>| has_key(final(self).entries(), u) ==> #[trigger] final(self).lookup(u) == old(self).lookup(u),
    {
        let ghost e0 = self.entries();
        proof {
            self.lemma_shape();
        }
        let mut kept: Vec<(Vec<usize>, u64)> = Vec::new();
        let mut p: usize = 0;
        while p < self.nodes.len()
            invariant
                self.shape_ok(),
                e0 == self.entries(),
                e0 == old(self).entries(),
                keys_unique(e0),
                e0[0].0 == Seq::<usize>::empty(),
                0 <= p <= e0.len(),
                p > 0 ==> entries_of(kept@).len() > 0 && entries_of(kept@)[0] == e0[0],
                forall|x: int| 0 <= x < kept@.len() ==> exists|y: int| 0 <= y < p && #[trigger] entries_of(kept@)[x] == e0[y],
                keys_unique(entries_of(kept@)),
                forall|u: Seq<usize>| #[trigger] has_key(entries_of(kept@), u) == (exists|y: int| 0 <= y < p && (#[trigger] e0[y]).0 == u && (u.len() == 0 || path_frequent(e0, u, sup))),
            decreases e0.len() - p,
        {
            assert(e0[p as int] == entry_view(self.nodes@[p as int]));
            let key = &self.nodes[p].0;
            if key.len() == 0 || self.is_path_frequent(key, sup) {
                let ghost before = entries_of(kept@);
                kept.push((copy_itemset(key), self.nodes[p].1));
                proof {
                    let k = entries_of(kept@);
                    assert(k =~= before.push(e0[p as int]));
                    crate::itemset::lemma_push_contains(before, e0[p as int]);
                    assert forall|x: int, y: int| 0 <= x < y < k.len() implies (#[trigger] k[x]).0 != (#[trigger] k[y]).0 by {
                        if y == before.len() {
                            assert(k[x] == before[x]);
                            let z = choose|z: int| 0 <= z < p && #[trigger] before[x] == e0[z];
                            assert(e0[z].0 != e0[p as int].0);
                        }
                    }
                    assert forall|x: int| 0 <= x < k.len() implies exists|y: int| 0 <= y < p + 1 && #[trigger] k[x] == e0[y] by {
                        if x < before.len() {
                            assert(k[x] == before[x]);
                            let z = choose|z: int| 0 <= z < p && #[trigger] before[x] == e0[z];
                        } else {
                            assert(k[x] == e0[p as int]);
                        }
                    }
                    assert forall|u: Seq<usize>| #[trigger] has_key(k, u) == (exists|y: int| 0 <= y < p + 1 && (#[trigger] e0[y]).0 == u && (u.len() == 0 || path_frequent(e0, u, sup))) by {
                        if has_key(before, u) {
                            let x = choose|x: int| 0 <= x < before.len() && (#[trigger] before[x]).0 == u;
                            assert(k[x] == before[x]);
                        }
                        if u == e0[p as int].0 {
                            assert(k[before.len() as int].0 == u);
                        }
                        if has_key(k, u) {
                            let x = choose|x: int| 0 <= x < k.len() && (#[trigger] k[x]).0 == u;
                            if x < before.len() {
                                assert(k[x] == before[x]);
                            }
                        }
                    }
                    if p == 0 {
                        assert(k[0] == e0[0]);
                    } else {
                        assert(k[0] == before[0]);
                    }
                }
            } else {
                proof {
                    assert forall|u: Seq<usize>| #[trigger] has_key(entries_of(kept@), u) == (exists|y: int| 0 <= y < p + 1 && (#[trigger] e0[y]).0 == u && (u.len() == 0 || path_frequent(e0, u, sup))) by {
                        if exists|y: int| 0 <= y < p + 1 && (#[trigger] e0[y]).0 == u && (u.len() == 0 || path_frequent(e0, u, sup)) {
                            let y = choose|y: int| 0 <= y < p + 1 && (#[trigger] e0[y]).0 == u && (u.len() == 0 || path_frequent(e0, u, sup));
                            if y == p {
                                assert(false);
                            }
                        }
                    }
                }
            }
            p = p + 1;
        }
        let ghost k = entries_of(kept@);
        proof {
            assert forall|u: Seq<usize>| #[trigger] has_key(k, u) == (has_key(e0, u) && (u.len() == 0 || path_frequent(e0, u, sup))) by {
                if has_key(e0, u) && (u.len() == 0 || path_frequent(e0, u, sup)) {
                    let y = choose|y: int| 0 <= y < e0.len() && (#[trigger] e0[y]).0 == u;
                }
            }
            assert forall|x: int| 0 <= x < k.len() implies is_itemset((#[trigger] k[x]).0) by {
                let y = choose|y: int| 0 <= y < p && #[trigger] k[x] == e0[y];
            }
            assert forall|x: int| 0 <= x < k.len() && (#[trigger] k[x]).0.len() > 0 implies has_key(k, k[x].0.drop_last()) by {
                let u = k[x].0;
                assert(has_key(k, u));
                let w = u.drop_last();
                let y = choose|y: int| 0 <= y < e0.len() && (#[trigger] e0[y]).0 == u;
                assert(has_key(e0, w));
                if w.len() > 0 {
                    assert forall|l: int| 1 <= l <= w.len() implies has_key(e0, #[trigger] w.take(l)) && value_of(e0, w.take(l)) >= sup by {
                        assert(w.take(l) =~= u.take(l));
                    }
                }
            }
            assert forall|u: Seq<usize>| has_key(k, u) implies #[trigger] lookup_in(k, u) == lookup_in(e0, u) by {
                let x = choose|x: int| 0 <= x < k.len() && (#[trigger] k[x]).0 == u;
                let y = choose|y: int| 0 <= y < p && #[trigger] k[x] == e0[y];
                lemma_value_of(k, x);
                lemma_value_of(e0, y);
            }
            reveal(nodes_shaped);
        }
        self.nodes = kept;
    }

    /// Holds the node `path`, appending it with counter 0 if it is missing;
    /// its parent is held.
    fn ensure_node(&mut self, path: Vec<usize>)
        requires
            old(self).shape_ok(),
            path@.len() > 0,
            is_itemset(path@),
            has_key(old(self).entries(), path@.drop_last()),
        ensures
            final(self).shape_ok(),
            final(self).size == old(self).size,
            final(self).entries() == old(self).entries() || final(self).entries() == old(self).entries().push((path@, 0u64)),
            forall|u: Seq<usize>| #[trigger] has_key(final(self).entries(), u) == (has_key(old(self).entries(), u) || u == path@),
    {
        if self.position(&path).is_none() {
            self.push_node(path, 0);
        }
    }

    /// Appends the node `path` with counter `count`; its parent is held.
    fn push_node(&mut self, path: Vec<usize>, count: u64)
        requires
            old(self).shape_ok(),
            path@.len() > 0,
            is_itemset(path@),
            !has_key(old(self).entries(), path@),
            has_key(old(self).entries(), path@.drop_last()),
        ensures
            final(self).shape_ok(),
            final(self).size == old(self).size,
            final(self).entries() == old(self).entries().push((path@, count)),
            forall|u: Seq<usize>| #[trigger] has_key(final(self).entries(), u) == (has_key(old(self).entries(), u) || u == path@),
    {
        let ghost before = self.entries();
        let ghost pv = path@;
        proof {
            old(self).lemma_shape();
        }
        self.nodes.push((path, count));
        proof {
            reveal(nodes_shaped);
            let e = self.entries();
            assert(e =~= before.push((pv, count)));
            assert forall|u: Seq<usize>| #[trigger] has_key(e, u) == (has_key(before, u) || u == pv) by {
                if has_key(e, u) {
                    let p = choose|p: int| 0 <= p < e.len() && (#[trigger] e[p]).0 == u;
                    if p < before.len() {
                        assert(before[p].0 == u);
                    }
                }
                if has_key(before, u) {
                    let p = choose|p: int| 0 <= p < before.len() && (#[trigger] before[p]).0 == u;
                    assert(e[p].0 == u);
                }
                if u == pv {
                    assert(e[before.len() as int].0 == u);
                }
            }
            assert forall|x: int, y: int| 0 <= x < y < e.len() implies (#[trigger] e[x]).0 != (#[trigger] e[y]).0 by {
                if y == before.len() {
                    assert(e[x] == before[x]);
                }
            }
            assert forall|p: int| 0 <= p < e.len() implies is_itemset((#[trigger] e[p]).0) by {
                if p < before.len() {
                    assert(e[p] == before[p]);
                }
            }
            assert forall|p: int| 0 <= p < e.len() && (#[trigger] e[p]).0.len() > 0 implies has_key(e, e[p].0.drop_last()) by {
                if p < before.len() {
                    assert(e[p] == before[p]);
                }
            }
        }
    }

    /// What a well-formed trie gives its callers: unique paths, the root
    /// first, every path an itemset.
    pub proof fn lemma_shape(&self)
        requires
            self.wf(),
        ensures
            self.entries().len() >= 1,
            self.entries()[0].0 == Seq::<usize>::empty(),
            keys_unique(self.entries()),
            forall|p: int| 0 <= p < self.entries().len() ==> is_itemset((#[trigger] self.entries()[p]).0),
            forall|p: int| 0 <= p < self.entries().len() && (#[trigger] self.entries()[p]).0.len() > 0 ==> has_key(self.entries(), self.entries()[p].0.drop_last()),
    {
        reveal(nodes_shaped);
    }

    /// The prefixes of a held path are held.
    pub proof fn lemma_prefixes(&self, u: Seq<usize>, l: int)
        requires
            self.wf(),
            has_key(self.entries(), u),
            0 <= l <= u.len(),
        ensures
            has_key(self.entries(), u.take(l)),
        decreases u.len() - l,
    {
        let e = self.entries();
        self.lemma_shape();
        if l == u.len() {
            assert(u.take(l) =~= u);
        } else {
            self.lemma_prefixes(u, l + 1);
            let p = choose|p: int| 0 <= p < e.len() && (#[trigger] e[p]).0 == u.take(l + 1);
            assert(u.take(l + 1).drop_last() =~= u.take(l));
        }
    }

    /// An empty trie.
    pub fn new() -> (r: Self)
        ensures
            r.wf(),
            r.size_spec() == 0,
            r.entries() == seq![(Seq::<usize>::empty(), u64::MAX)],
            r.lookup(Seq::empty()) == Some(u64::MAX),
            forall|v: Seq<usize>| v.len() > 0 ==> #[trigger] r.lookup(v).is_none(),
    {
        let mut nodes: Vec<(Vec<usize>, u64)> = Vec::new();
        nodes.push((Vec::new(), u64::MAX));
        let r = Self { nodes, size: 0 };
        proof {
            reveal(nodes_shaped);
            assert(r.entries() =~= seq![(Seq::<usize>::empty(), u64::MAX)]);
            assert(r.entries()[0] == (Seq::<usize>::empty(), u64::MAX));
            lemma_value_of(r.entries(), 0);
        }
        r
    }

    /// Position of the node spelled by `v`.
    fn position(&self, v: &Vec<usize>) -> (r: Option<usize>)
        ensures
            r.is_some() ==> r.unwrap() < self.entries().len() && self.entries()[r.unwrap() as int].0 == v@,
            r.is_none() ==> !has_key(self.entries(), v@),
    {
        let mut p: usize = 0;
        while p < self.nodes.len()
            invariant
                0 <= p <= self.nodes@.len(),
                forall|q: int| 0 <= q < p ==> self.entries()[q].0 != v@,
            decreases self.nodes.len() - p,
        {
            assert(self.entries()[p as int] == entry_view(self.nodes@[p as int]));
            if itemset_eq(&self.nodes[p].0, v) {
                return Some(p);
            }
            p = p + 1;
        }
        None
    }

    /// Checks if `v` is in the trie.
    pub fn contains(&self, v: &Vec<usize>) -> (r: bool)
        ensures
            r == self.lookup(v@).is_some(),
    {
        self.position(v).is_some()
    }

    /// Number of nodes, the root included.
    pub fn node_count(&self) -> (r: usize)
        ensures
            r == self.entries().len(),
    {
        self.nodes.len()
    }

    /// Number of itemsets added.
    pub fn size(&self) -> (r: usize)
        ensures
            r == self.size_spec(),
    {
        self.size
    }

    /// The counter of `v`, if the trie holds it.
    pub fn get(&self, v: &Vec<usize>) -> (r: Option<u64>)
        requires
            self.wf(),
        ensures
            r == self.lookup(v@),
    {
        match self.position(v) {
            Some(p) => {
                proof {
                    self.lemma_shape();
                    lemma_value_of(self.entries(), p as int);
                }
                assert(self.entries()[p as int] == entry_view(self.nodes@[p as int]));
                Some(self.nodes[p].1)
            },
            None => None,
        }
    }

    /// Adds `v` and its prefixes to the trie, each missing one with counter
    /// 0. Returns whether `v` was missing.
    #[verifier::rlimit(100)]
    pub fn add(&mut self, v: &Vec<usize>) -> (r: bool)
        requires
            old(self).wf(),
            is_itemset(v@),
        ensures
            final(self).wf(),
            r == old(self).lookup(v@).is_none(),
            final(self).size_spec() == sat_add(old(self).size_spec(), if r { 1nat } else { 0nat }),
            final(self).entries().len() >= old(self).entries().len(),
            final(self).entries().take(old(self).entries().len() as int) == old(self).entries(),
            forall|p: int| old(self).entries().len() <= p < final(self).entries().len() ==> (#[trigger] final(self).entries()[p]).1 == 0,
            forall|u: Seq<usize>| #[trigger] has_key(final(self).entries(), u) == (has_key(old(self).entries(), u) || is_prefix_of(u, v@)),
    {
        proof {
            old(self).lemma_shape();
        }
        let missing = self.position(v).is_none();
        let ghost e0 = self.entries();
        let len0 = self.nodes.len();
        let mut i: usize = 0;
        while i < v.len()
            invariant
                0 <= i <= v@.len(),
                is_itemset(v@),
                len0 == e0.len(),
                e0 == old(self).entries(),
                self.shape_ok(),
                self.entries().len() >= len0,
                self.entries().take(len0 as int) == e0,
                forall|p: int| len0 <= p < self.entries().len() ==> (#[trigger] self.entries()[p]).1 == 0 && is_prefix_of(self.entries()[p].0, v@),
                forall|j: int| 1 <= j <= i ==> has_key(self.entries(), #[trigger] v@.take(j)),
                self.size == old(self).size,
            decreases v.len() - i,
        {
            let l = i + 1;
            let prefix = take_prefix(v, l);
            let ghost before = self.entries();
            proof {
                self.lemma_shape();
                if l > 1 {
                    assert(prefix@.drop_last() =~= v@.take(l - 1));
                    assert(has_key(before, v@.take(l - 1)));
                } else {
                    assert(prefix@.drop_last() =~= Seq::<usize>::empty());
                    assert(before[0].0 == prefix@.drop_last());
                }
                assert forall|a: int, b: int| 0 <= a < b < prefix@.len() implies prefix@[a] < prefix@[b] by {
                    assert(prefix@[a] == v@[a] && prefix@[b] == v@[b]);
                }
            }
            self.ensure_node(prefix);
            proof {
                let e = self.entries();
                if e != before {
                    assert(e.take(len0 as int) =~= before.take(len0 as int));
                    assert(e[before.len() as int].0 == v@.take(l as int));
                    assert(is_prefix_of(v@.take(l as int), v@));
                }
                assert forall|p: int| len0 <= p < e.len() implies (#[trigger] e[p]).1 == 0 && is_prefix_of(e[p].0, v@) by {
                    if p < before.len() {
                        assert(e[p] == before[p]);
                    }
                }
                assert forall|j: int| 1 <= j < l + 1 implies has_key(e, #[trigger] v@.take(j)) by {
                    if j < l {
                        assert(has_key(before, v@.take(j)));
                    }
                }
            }
            i = i + 1;
        }
        proof {
            let e = self.entries();
            self.lemma_shape();
            old(self).lemma_shape();
            assert forall|u: Seq<usize>| #[trigger] has_key(e, u) == (has_key(e0, u) || is_prefix_of(u, v@)) by {
                if has_key(e, u) && !has_key(e0, u) {
                    let p = choose|p: int| 0 <= p < e.len() && (#[trigger] e[p]).0 == u;
                    if p < len0 {
                        assert(e.take(len0 as int)[p] == e0[p]);
                    }
                }
                if has_key(e0, u) {
                    let p = choose|p: int| 0 <= p < e0.len() && (#[trigger] e0[p]).0 == u;
                    assert(e.take(len0 as int)[p] == e[p]);
                }
                if is_prefix_of(u, v@) {
                    assert(has_key(e, v@.take(u.len() as int)));
                }
            }
            if !missing {
                if e.len() > len0 {
                    let p = len0 as int;
                    let u = e[p].0;
                    assert(is_prefix_of(u, v@));
                    old(self).lemma_prefixes(v@, u.len() as int);
                    let q = choose|q: int| 0 <= q < e0.len() && (#[trigger] e0[q]).0 == u;
                    assert(e.take(len0 as int)[q] == e[q]);
                    assert(e[q].0 != e[p].0);
                }
                assert(e.take(len0 as int) =~= e);
            } else {
                assert(v@.len() > 0) by {
                    if v@.len() == 0 {
                        assert(e0[0].0 == v@);
                    }
                }
                assert(v@.take(v@.len() as int) =~= v@);
                assert(has_key(e, v@));
                let p = choose|p: int| 0 <= p < e.len() && (#[trigger] e[p]).0 == v@;
                if p < len0 {
                    assert(e.take(len0 as int)[p] == e0[p]);
                }
            }
        }
        if missing {
            self.size = if self.size < usize::MAX {
                self.size + 1
            } else {
                self.size
            };
        }
        missing
    }
}

} // verus!
