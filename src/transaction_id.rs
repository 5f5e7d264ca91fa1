use vstd::prelude::*;
use crate::itemset::{is_itemset, subset_of, support, views_of, copy_itemset};
use crate::candidates::Candidates;
use crate::candidates_func::join;
use crate::frequent::{joined, is_candidate, level_of, lemma_candidate_shape};
use crate::hash_tree::{AprioriHashTree, has_key};
use crate::apriori::{increment_all, count_by_candidates, count_by_subsets, countable, AprioriCandidates};
use crate::transaction_set::TransactionSet;

verus! {

/// Below this many candidates, the switch-in to TID entries tests each
/// candidate against the transaction; from it on, it enumerates the subsets
/// of the transaction instead.
pub const TID_SWITCH_THRESHOLD: usize = 400;

/// The itemsets of `level` that lie inside `t`.
pub open spec fn entry_of(level: Set<Seq<usize>>, t: Seq<usize>) -> Set<Seq<usize>> {
    Set::new(|s: Seq<usize>| level.contains(s) && subset_of(s, t))
}

/// The TID entries of `data` for `level`: for each transaction in order, the
/// itemsets of `level` inside it, with empty entries left out.
pub open spec fn tids_of(data: Seq<Seq<usize>>, level: Set<Seq<usize>>) -> Seq<Set<Seq<usize>>>
    decreases data.len(),
{
    if data.len() == 0 {
        Seq::empty()
    } else {
        let e = entry_of(level, data.last());
        if e == Set::<Seq<usize>>::empty() {
            tids_of(data.drop_last(), level)
        } else {
            tids_of(data.drop_last(), level).push(e)
        }
    }
}

/// The entry that follows `e`: the itemsets of `next` joined from `e`.
pub open spec fn next_entry(e: Set<Seq<usize>>, next: Set<Seq<usize>>) -> Set<Seq<usize>> {
    Set::new(|c: Seq<usize>| next.contains(c) && joined(e, c))
}

/// The TID entries that follow `tids`, with empty entries left out.
pub open spec fn next_tids(tids: Seq<Set<Seq<usize>>>, next: Set<Seq<usize>>) -> Seq<Set<Seq<usize>>>
    decreases tids.len(),
{
    if tids.len() == 0 {
        Seq::empty()
    } else {
        let e = next_entry(tids.last(), next);
        if e == Set::<Seq<usize>>::empty() {
            next_tids(tids.drop_last(), next)
        } else {
            next_tids(tids.drop_last(), next).push(e)
        }
    }
}

/// Number of entries of `tids` from which `c` is joined.
pub open spec fn tid_support(tids: Seq<Set<Seq<usize>>>, c: Seq<usize>) -> nat
    decreases tids.len(),
{
    if tids.len() == 0 {
        0
    } else {
        tid_support(tids.drop_last(), c) + if joined(tids.last(), c) {
            1nat
        } else {
            0nat
        }
    }
}

/// The candidates joined and pruned from `prev`.
pub open spec fn candidates_of(prev: Set<Seq<usize>>) -> Set<Seq<usize>> {
    Set::new(|c: Seq<usize>| is_candidate(prev, c))
}

/// Every itemset of the single items.
pub open spec fn singletons() -> Set<Seq<usize>> {
    Set::new(|s: Seq<usize>| s.len() == 1)
}

/// `a` is contained in `b`.
pub open spec fn included(a: Set<Seq<usize>>, b: Set<Seq<usize>>) -> bool {
    forall|s: Seq<usize>| #[trigger] a.contains(s) ==> b.contains(s)
}

/// A candidate of `prev` is joined from the entry of a transaction exactly
/// when the transaction holds it, for any level that includes `prev`.
pub proof fn lemma_entry_join(prev: Set<Seq<usize>>, level: Set<Seq<usize>>, m: nat, c: Seq<usize>, t: Seq<usize>)
    requires
        is_candidate(prev, c),
        included(prev, level),
        level_of(prev, m),
    ensures
        joined(entry_of(level, t), c) == subset_of(c, t),
        entry_of(level, t) == Set::<Seq<usize>>::empty() ==> !subset_of(c, t),
{
    let g1 = c.drop_last();
    let g2 = c.subrange(0, c.len() - 2).push(c.last());
    let e = entry_of(level, t);
    assert(prev.contains(g1) && prev.contains(g2));
    assert(level.contains(g1) && level.contains(g2));
    if subset_of(c, t) {
        assert forall|i: int| 0 <= i < g1.len() implies t.contains(#[trigger] g1[i]) by {
            assert(g1[i] == c[i]);
        }
        assert forall|i: int| 0 <= i < g2.len() implies t.contains(#[trigger] g2[i]) by {
            if i < g2.len() - 1 {
                assert(g2[i] == c[i]);
            } else {
                assert(g2[i] == c[c.len() - 1]);
            }
        }
        assert(e.contains(g1));
    }
    if subset_of(g1, t) && subset_of(g2, t) {
        assert forall|i: int| 0 <= i < c.len() implies t.contains(#[trigger] c[i]) by {
            if i < c.len() - 1 {
                assert(g1[i] == c[i]);
            } else {
                assert(g2[g2.len() - 1] == c[i]);
            }
        }
    }
}

/// Counting candidates through the TID entries gives their support.
pub proof fn lemma_tid_support(data: Seq<Seq<usize>>, level: Set<Seq<usize>>, prev: Set<Seq<usize>>, m: nat, c: Seq<usize>)
    requires
        is_candidate(prev, c),
        included(prev, level),
        level_of(prev, m),
    ensures
        tid_support(tids_of(data, level), c) == support(data, c),
    decreases data.len(),
{
    if data.len() > 0 {
        lemma_tid_support(data.drop_last(), level, prev, m, c);
        lemma_entry_join(prev, level, m, c, data.last());
        let e = entry_of(level, data.last());
        let rest = tids_of(data.drop_last(), level);
        if e != Set::<Seq<usize>>::empty() {
            assert(rest.push(e).drop_last() =~= rest);
        }
    }
}

/// The TID entries that follow those of `level` are those of the candidates.
pub proof fn lemma_next_tids(data: Seq<Seq<usize>>, level: Set<Seq<usize>>, prev: Set<Seq<usize>>, m: nat)
    requires
        included(prev, level),
        level_of(prev, m),
    ensures
        next_tids(tids_of(data, level), candidates_of(prev)) == tids_of(data, candidates_of(prev)),
    decreases data.len(),
{
    if data.len() > 0 {
        lemma_next_tids(data.drop_last(), level, prev, m);
        let t = data.last();
        let e = entry_of(level, t);
        let next = candidates_of(prev);
        let rest = tids_of(data.drop_last(), level);
        assert(next_entry(e, next) =~= entry_of(next, t)) by {
            assert forall|c: Seq<usize>| next_entry(e, next).contains(c) == entry_of(next, t).contains(c) by {
                if next.contains(c) {
                    lemma_entry_join(prev, level, m, c, t);
                }
            }
        }
        if e == Set::<Seq<usize>>::empty() {
            assert(entry_of(next, t) =~= Set::<Seq<usize>>::empty()) by {
                assert forall|c: Seq<usize>| !entry_of(next, t).contains(c) by {
                    if next.contains(c) {
                        lemma_entry_join(prev, level, m, c, t);
                    }
                }
            }
        } else {
            assert(rest.push(e).drop_last() =~= rest);
            assert(rest.push(e).last() == e);
        }
    }
}

/// Each TID entry is made of members of `level`.
pub proof fn lemma_tids_within(data: Seq<Seq<usize>>, level: Set<Seq<usize>>, i: int)
    requires
        0 <= i < tids_of(data, level).len(),
    ensures
        included(tids_of(data, level)[i], level),
        tids_of(data, level)[i] != Set::<Seq<usize>>::empty(),
    decreases data.len(),
{
    if data.len() > 0 {
        let e = entry_of(level, data.last());
        let rest = tids_of(data.drop_last(), level);
        if e == Set::<Seq<usize>>::empty() {
            lemma_tids_within(data.drop_last(), level, i);
        } else if i < rest.len() {
            assert(rest.push(e)[i] == rest[i]);
            lemma_tids_within(data.drop_last(), level, i);
        }
    }
}

/// There are no more TID entries than transactions.
pub proof fn lemma_tids_len(data: Seq<Seq<usize>>, level: Set<Seq<usize>>)
    ensures
        tids_of(data, level).len() <= data.len(),
    decreases data.len(),
{
    if data.len() > 0 {
        lemma_tids_len(data.drop_last(), level);
    }
}

pub proof fn lemma_tid_support_bound(tids: Seq<Set<Seq<usize>>>, c: Seq<usize>)
    ensures
        tid_support(tids, c) <= tids.len(),
    decreases tids.len(),
{
    if tids.len() > 0 {
        lemma_tid_support_bound(tids.drop_last(), c);
    }
}

/// The itemsets known to lie inside one transaction.
#[derive(Debug)]
pub struct TransactionID {
    v: Candidates,
}

impl View for TransactionID {
    type V = Set<Seq<usize>>;

    closed spec fn view(&self) -> Set<Seq<usize>> {
        self.v@
    }
}

impl TransactionID {
    /// The itemsets of the entry.
    pub closed spec fn ids_spec(&self) -> Candidates {
        self.v
    }

    pub closed spec fn wf(&self) -> bool {
        self.v.wf()
    }

    /// The entry holding the itemsets of `v`.
    pub fn new(v: Candidates) -> (r: Self)
        requires
            v.wf(),
        ensures
            r.wf(),
            r@ == v@,
    {
        Self { v }
    }

    /// Counts the joins of this entry into `set`, and returns the entry of the
    /// joins that `set` holds.
    pub fn count(&self, set: &mut AprioriHashTree) -> (r: Self)
        requires
            self.wf(),
            old(set).wf(),
            exists|m: nat| m >= 1 && level_of(self@, m),
            forall|p: int| 0 <= p < old(set).entries().len() ==> (#[trigger] old(set).entries()[p]).1 < u64::MAX,
        ensures
            r.wf(),
            final(set).wf(),
            final(set).entries().len() == old(set).entries().len(),
            forall|p: int|
                0 <= p < old(set).entries().len() ==> #[trigger] final(set).entries()[p] == (
                    old(set).entries()[p].0,
                    (old(set).entries()[p].1 + if joined(self@, old(set).entries()[p].0) {
                        1nat
                    } else {
                        0nat
                    }) as u64,
                ),
            r@ == next_entry(self@, Set::new(|c: Seq<usize>| has_key(old(set).entries(), c))),
    {
        let ghost m = choose|m: nat| m >= 1 && level_of(self@, m);
        let items = self.v.as_vec();
        proof {
            assert forall|i: int| 0 <= i < items@.len() implies (#[trigger] items@[i])@.len() == m by {
                assert(views_of(items@)[i] == items@[i]@);
                assert(views_of(items@).to_set().contains(items@[i]@));
            }
        }
        let joins = join(items);
        proof {
            assert forall|x: int| 0 <= x < joins@.len() implies (#[trigger] joins@[x])@.len() > 0 by {
                assert(views_of(joins@)[x] == joins@[x]@);
                assert(views_of(joins@).contains(joins@[x]@));
            }
        }
        let hits = increment_all(&joins, set);
        let r = Self { v: Candidates::new(hits) };
        proof {
            assert(r@ =~= next_entry(self@, Set::new(|c: Seq<usize>| has_key(old(set).entries(), c))));
        }
        r
    }

    /// The entry of pass 1: the single items of the transaction.
    pub fn start(data: &Vec<usize>) -> (r: Self)
        ensures
            r.wf(),
            r@ == entry_of(singletons(), data@),
    {
        let mut c = Candidates::empty();
        let mut i: usize = 0;
        while i < data.len()
            invariant
                0 <= i <= data@.len(),
                c.wf(),
                c@ == Set::new(|s: Seq<usize>| s.len() == 1 && data@.take(i as int).contains(s[0])),
            decreases data.len() - i,
        {
            let mut one: Vec<usize> = Vec::new();
            one.push(data[i]);
            let ghost x = data@[i as int];
            c.insert(one);
            proof {
                assert(one@ =~= seq![x]);
                assert forall|s: Seq<usize>| #[trigger] c@.contains(s) == (s.len() == 1 && data@.take(i as int + 1).contains(s[0])) by {
                    crate::itemset::lemma_push_contains(data@.take(i as int), x);
                    assert(data@.take(i as int + 1) =~= data@.take(i as int).push(x));
                    if s.len() == 1 && s[0] == x {
                        assert(s =~= one@);
                    }
                }
                assert(c@ =~= Set::new(|s: Seq<usize>| s.len() == 1 && data@.take(i as int + 1).contains(s[0])));
            }
            i = i + 1;
        }
        proof {
            assert(data@.take(i as int) =~= data@);
            assert(c@ =~= entry_of(singletons(), data@)) by {
                assert forall|s: Seq<usize>| c@.contains(s) == entry_of(singletons(), data@).contains(s) by {
                    if s.len() == 1 {
                        if data@.contains(s[0]) {
                            assert forall|j: int| 0 <= j < s.len() implies data@.contains(#[trigger] s[j]) by {}
                        }
                        if subset_of(s, data@) {
                            assert(data@.contains(s[0]));
                        }
                    }
                }
            }
        }
        Self { v: c }
    }

    /// Counts the transaction `data` for pass `k + 1` into `set`, and returns
    /// the entry of the itemsets of `set` inside `data`.
    pub fn from_transaction(data: &Vec<usize>, k: usize, set: &mut AprioriHashTree) -> (r: Self)
        requires
            k < usize::MAX,
            old(set).wf(),
            is_itemset(data@),
            countable(old(set).entries(), (k + 1) as nat),
        ensures
            r.wf(),
            final(set).wf(),
            crate::apriori::counted(old(set).entries(), final(set).entries(), data@),
            r@ == Set::new(|c: Seq<usize>| has_key(old(set).entries(), c) && subset_of(c, data@)),
    {
        let hits = if set.len() < TID_SWITCH_THRESHOLD {
            count_by_candidates(data, k + 1, set)
        } else {
            count_by_subsets(data, k + 1, set)
        };
        let r = Self { v: Candidates::new(hits) };
        assert(r@ =~= Set::new(|c: Seq<usize>| has_key(old(set).entries(), c) && subset_of(c, data@)));
        r
    }

    /// The itemsets of the entry, to change in place.
    pub fn ids_mut(&mut self) -> (r: &mut Candidates)
        ensures
            *r == old(self).ids_spec(),
            r@ == old(self)@,
            final(self).ids_spec() == *final(r),
    {
        &mut self.v
    }

    /// The itemsets of the entry.
    pub fn ids(&self) -> (r: &Candidates)
        ensures
            r@ == self@,
            r.wf() == self.wf(),
    {
        &self.v
    }

    /// Tests whether the entry is empty.
    pub fn is_empty(&self) -> (r: bool)
        requires
            self.wf(),
        ensures
            r == (self@ == Set::<Seq<usize>>::empty()),
    {
        self.v.is_empty()
    }
}

/// Every entry of `tids` is a level of size `m`.
pub open spec fn tids_level(tids: Seq<Set<Seq<usize>>>, m: nat) -> bool {
    forall|i: int| 0 <= i < tids.len() ==> level_of(#[trigger] tids[i], m)
}

/// The TID entries of all transactions.
#[derive(Debug)]
pub struct TransactionIDs {
    v: Vec<TransactionID>,
}

impl TransactionIDs {
    /// The entries, in transaction order.
    pub closed spec fn tids(&self) -> Seq<Set<Seq<usize>>> {
        self.v@.map_values(|e: TransactionID| e@)
    }

    pub closed spec fn wf(&self) -> bool {
        forall|i: int| 0 <= i < self.v@.len() ==> (#[trigger] self.v@[i]).wf()
    }

    /// The list of the entries `v`.
    pub fn new(v: Vec<TransactionID>) -> (r: Self)
        requires
            forall|i: int| 0 <= i < v@.len() ==> (#[trigger] v@[i]).wf(),
        ensures
            r.wf(),
            r.tids() == v@.map_values(|e: TransactionID| e@),
    {
        Self { v }
    }

    /// Number of entries.
    pub fn len(&self) -> (r: usize)
        ensures
            r == self.tids().len(),
    {
        self.v.len()
    }

    /// Counts the joins of each entry into `set` and returns the entries that
    /// follow, leaving out the empty ones.
    pub fn count(&self, set: &mut AprioriHashTree) -> (r: Self)
        requires
            self.wf(),
            old(set).wf(),
            exists|m: nat| m >= 1 && #[trigger] tids_level(self.tids(), m),
            forall|p: int| 0 <= p < old(set).entries().len() ==> (#[trigger] old(set).entries()[p]).1 + self.tids().len() <= u64::MAX,
        ensures
            r.wf(),
            final(set).wf(),
            final(set).entries().len() == old(set).entries().len(),
            forall|p: int|
                0 <= p < old(set).entries().len() ==> #[trigger] final(set).entries()[p] == (
                    old(set).entries()[p].0,
                    (old(set).entries()[p].1 + tid_support(self.tids(), old(set).entries()[p].0)) as u64,
                ),
            r.tids() == next_tids(self.tids(), Set::new(|c: Seq<usize>| has_key(old(set).entries(), c))),
    {
        let ghost m = choose|m: nat| m >= 1 && #[trigger] tids_level(self.tids(), m);
        let ghost e0 = set.entries();
        let ghost keys = Set::new(|c: Seq<usize>| has_key(e0, c));
        let ghost ts = self.tids();
        let mut out: Vec<TransactionID> = Vec::new();
        let mut i: usize = 0;
        while i < self.v.len()
            invariant
                self.wf(),
                ts == self.tids(),
                ts.len() == self.v@.len(),
                m >= 1,
                forall|x: int| 0 <= x < ts.len() ==> level_of(#[trigger] ts[x], m),
                forall|p: int| 0 <= p < e0.len() ==> (#[trigger] e0[p]).1 + ts.len() <= u64::MAX,
                e0 == old(set).entries(),
                keys == Set::new(|c: Seq<usize>| has_key(e0, c)),
                0 <= i <= self.v@.len(),
                set.wf(),
                set.entries().len() == e0.len(),
                forall|p: int|
                    0 <= p < e0.len() ==> #[trigger] set.entries()[p] == (
                        e0[p].0,
                        (e0[p].1 + tid_support(ts.take(i as int), e0[p].0)) as u64,
                    ),
                forall|x: int| 0 <= x < out@.len() ==> (#[trigger] out@[x]).wf(),
                out@.map_values(|e: TransactionID| e@) == next_tids(ts.take(i as int), keys),
            decreases self.v.len() - i,
        {
            let e = &self.v[i];
            assert(e@ == ts[i as int]);
            proof {
                assert forall|p: int| 0 <= p < set.entries().len() implies (#[trigger] set.entries()[p]).1 < u64::MAX by {
                    lemma_tid_support_bound(ts.take(i as int), e0[p].0);
                }
            }
            let ghost before = set.entries();
            let next = e.count(set);
            proof {
                assert(Set::new(|c: Seq<usize>| has_key(before, c)) =~= keys) by {
                    assert forall|c: Seq<usize>| has_key(before, c) == has_key(e0, c) by {
                        if has_key(before, c) {
                            let p = choose|p: int| 0 <= p < before.len() && (#[trigger] before[p]).0 == c;
                            assert(e0[p].0 == c);
                        }
                        if has_key(e0, c) {
                            let p = choose|p: int| 0 <= p < e0.len() && (#[trigger] e0[p]).0 == c;
                            assert(before[p].0 == c);
                        }
                    }
                }
                assert(ts.take(i as int + 1).drop_last() =~= ts.take(i as int));
                assert(ts.take(i as int + 1).last() == ts[i as int]);
                assert forall|p: int| 0 <= p < e0.len() implies #[trigger] set.entries()[p] == (
                        e0[p].0,
                        (e0[p].1 + tid_support(ts.take(i as int + 1), e0[p].0)) as u64,
                    ) by {
                    lemma_tid_support_bound(ts.take(i as int), e0[p].0);
                    assert(before[p] == (e0[p].0, (e0[p].1 + tid_support(ts.take(i as int), e0[p].0)) as u64));
                }
            }
            let ghost old_out = out@;
            if !next.is_empty() {
                out.push(next);
                proof {
                    assert(out@.map_values(|e: TransactionID| e@) =~= old_out.map_values(|e: TransactionID| e@).push(next@));
                }
            }
            i = i + 1;
        }
        proof {
            assert(ts.take(i as int) =~= ts);
        }
        Self { v: out }
    }

    /// The entries of pass 1: the single items of each transaction, leaving
    /// out empty transactions.
    pub fn start(data: &Vec<Vec<usize>>) -> (r: TransactionIDs)
        ensures
            r.wf(),
            r.tids() == tids_of(views_of(data@), singletons()),
    {
        let ghost dv = views_of(data@);
        let mut out: Vec<TransactionID> = Vec::new();
        let mut i: usize = 0;
        while i < data.len()
            invariant
                dv == views_of(data@),
                0 <= i <= data@.len(),
                forall|x: int| 0 <= x < out@.len() ==> (#[trigger] out@[x]).wf(),
                out@.map_values(|e: TransactionID| e@) == tids_of(dv.take(i as int), singletons()),
            decreases data.len() - i,
        {
            let value = TransactionID::start(&data[i]);
            proof {
                assert(dv.take(i as int + 1).drop_last() =~= dv.take(i as int));
                assert(dv.take(i as int + 1).last() == data@[i as int]@);
            }
            let ghost old_out = out@;
            if !value.is_empty() {
                out.push(value);
                proof {
                    assert(out@.map_values(|e: TransactionID| e@) =~= old_out.map_values(|e: TransactionID| e@).push(value@));
                }
            }
            i = i + 1;
        }
        proof {
            assert(dv.take(i as int) =~= dv);
        }
        Self { v: out }
    }

    /// Counts the transactions of `data` for the candidates of pass `k + 1`
    /// joined and pruned from `set`, and returns the counts with the TID
    /// entries of those candidates.
    pub fn from_transaction(data: &Vec<Vec<usize>>, k: usize, set: &Candidates) -> (r: (AprioriHashTree, Self))
        requires
            set.wf(),
            k >= 1,
            k < usize::MAX,
            level_of(set@, k as nat),
            forall|i: int| 0 <= i < data@.len() ==> is_itemset(#[trigger] views_of(data@)[i]),
        ensures
            r.0.wf(),
            r.1.wf(),
            forall|p: int| 0 <= p < r.0.entries().len() ==> is_candidate(set@, (#[trigger] r.0.entries()[p]).0) && r.0.entries()[p].1 == support(views_of(data@), r.0.entries()[p].0),
            forall|c: Seq<usize>| is_candidate(set@, c) ==> has_key(r.0.entries(), c),
            r.1.tids() == tids_of(views_of(data@), candidates_of(set@)),
    {
        let mut tree = AprioriCandidates::new(set).create_tree();
        let ghost e0 = tree.entries();
        let ghost prev = set@;
        let ghost dv = views_of(data@);
        let ghost cands = candidates_of(prev);
        let nd = data.len();
        proof {
            assert forall|x: int| 0 <= x < data@.len() implies is_itemset(#[trigger] data@[x]@) by {
                assert(views_of(data@)[x] == data@[x]@);
            }
            assert forall|p: int| 0 <= p < e0.len() implies is_itemset((#[trigger] e0[p]).0) && e0[p].0.len() == k + 1 by {
                lemma_candidate_shape(prev, k as nat, e0[p].0);
            }
        }
        let mut out: Vec<TransactionID> = Vec::new();
        let mut i: usize = 0;
        while i < nd
            invariant
                dv == views_of(data@),
                nd == data@.len(),
                forall|x: int| 0 <= x < data@.len() ==> is_itemset(#[trigger] data@[x]@),
                prev == set@,
                cands == candidates_of(prev),
                k < usize::MAX,
                0 <= i <= nd,
                tree.wf(),
                tree.entries().len() == e0.len(),
                forall|p: int| 0 <= p < e0.len() ==> is_itemset((#[trigger] e0[p]).0) && e0[p].0.len() == k + 1,
                forall|p: int| 0 <= p < e0.len() ==> (#[trigger] e0[p]).1 == 0 && is_candidate(prev, e0[p].0),
                forall|c: Seq<usize>| is_candidate(prev, c) ==> has_key(e0, c),
                forall|p: int| 0 <= p < e0.len() ==> #[trigger] tree.entries()[p] == (e0[p].0, support(dv.take(i as int), e0[p].0) as u64),
                forall|x: int| 0 <= x < out@.len() ==> (#[trigger] out@[x]).wf(),
                out@.map_values(|e: TransactionID| e@) == tids_of(dv.take(i as int), cands),
            decreases nd - i,
        {
            let t = &data[i];
            assert(t@ == dv[i as int]);
            proof {
                assert forall|p: int| 0 <= p < tree.entries().len() implies is_itemset((#[trigger] tree.entries()[p]).0) && tree.entries()[p].0.len() == k + 1 && tree.entries()[p].1 < u64::MAX by {
                    crate::itemset::lemma_support_bound(dv.take(i as int), e0[p].0);
                }
            }
            let ghost before = tree.entries();
            let value = TransactionID::from_transaction(t, k, &mut tree);
            proof {
                assert forall|p: int| 0 <= p < e0.len() implies #[trigger] tree.entries()[p] == (e0[p].0, support(dv.take(i as int + 1), e0[p].0) as u64) by {
                    crate::itemset::lemma_support_step(dv, e0[p].0, i as int);
                    assert(before[p] == (e0[p].0, support(dv.take(i as int), e0[p].0) as u64));
                    crate::itemset::lemma_support_bound(dv.take(i as int), e0[p].0);
                }
                assert(value@ =~= entry_of(cands, t@)) by {
                    assert forall|c: Seq<usize>| value@.contains(c) == entry_of(cands, t@).contains(c) by {
                        if has_key(before, c) {
                            let p = choose|p: int| 0 <= p < before.len() && (#[trigger] before[p]).0 == c;
                            assert(e0[p].0 == c);
                        }
                        if is_candidate(prev, c) {
                            let p = choose|p: int| 0 <= p < e0.len() && (#[trigger] e0[p]).0 == c;
                            assert(before[p].0 == c);
                        }
                    }
                }
                assert(dv.take(i as int + 1).drop_last() =~= dv.take(i as int));
                assert(dv.take(i as int + 1).last() == t@);
            }
            let ghost old_out = out@;
            if !value.is_empty() {
                out.push(value);
                proof {
                    assert(out@.map_values(|e: TransactionID| e@) =~= old_out.map_values(|e: TransactionID| e@).push(value@));
                }
            }
            i = i + 1;
        }
        proof {
            assert(dv.take(i as int) =~= dv);
            assert forall|c: Seq<usize>| is_candidate(prev, c) implies has_key(tree.entries(), c) by {
                let p = choose|p: int| 0 <= p < e0.len() && (#[trigger] e0[p]).0 == c;
                assert(tree.entries()[p].0 == c);
            }
            assert forall|p: int| 0 <= p < tree.entries().len() implies is_candidate(prev, (#[trigger] tree.entries()[p]).0) && tree.entries()[p].1 == support(dv, tree.entries()[p].0) by {
                crate::itemset::lemma_support_bound(dv, e0[p].0);
            }
        }
        (tree, Self { v: out })
    }
}

impl Default for TransactionIDs {
    fn default() -> (r: Self)
        ensures
            r.wf(),
            r.tids() == Seq::<Set<Seq<usize>>>::empty(),
    {
        let r = Self { v: Vec::new() };
        assert(r.tids() =~= Seq::<Set<Seq<usize>>>::empty());
        r
    }
}

} // verus!
