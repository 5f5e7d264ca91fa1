use vstd::prelude::*;
use crate::itemset::support;
use crate::candidates::Candidates;
use crate::transaction_set::TransactionSet;
use crate::hash_tree::{AprioriHashTree, has_key};
use crate::frequent::{frequent, is_candidate, level_of, is_levels, lemma_size_bound, lemma_frequent_level, lemma_candidate_shape};
use crate::apriori::{frequent_in, levels_of};
use crate::apriori_tid::AprioriTiDCandidates;
use crate::transaction_id::{TransactionIDs, tids_of, candidates_of, included, lemma_tid_support, lemma_next_tids, lemma_tids_within, lemma_tid_support_bound};
use crate::count_distribution::{count_pass, merge_into, counts_support, pass_keys, concat, shard_data, partitions_of, lemma_concat_step, lemma_concat_len, lemma_pass_keys_frequent, count_in};

verus! {

/// One shard of Count Distribution Hybrid with its own TID entries.
pub struct CDProcessHybrid {
    /// The shard.
    set: TransactionSet,
    /// The TID entries of the shard, once counting has switched to them.
    tid: TransactionIDs,
    /// The pass at which counting switches to TID entries.
    switch: usize,
    /// The itemsets whose TID entries `tid` holds.
    level: Ghost<Set<Seq<usize>>>,
}

impl CDProcessHybrid {
    pub closed spec fn shard(&self) -> TransactionSet {
        self.set
    }

    pub closed spec fn switch(&self) -> usize {
        self.switch
    }

    /// The process is ready to count pass `k` from the frequent itemsets `prev`.
    pub closed spec fn ready(&self, k: nat, prev: Set<Seq<usize>>) -> bool {
        &&& self.set.wf()
        &&& self.switch > 2
        &&& self.tid.wf()
        &&& k > self.switch ==> {
            &&& self.tid.tids() == tids_of(self.set.data(), self.level@)
            &&& included(prev, self.level@)
            &&& level_of(self.level@, (k - 1) as nat)
        }
    }

    /// After pass `k` from `prev`, the process is ready for pass `k + 1` from
    /// any frequent itemsets among the candidates of `prev`.
    proof fn lemma_ready_next(&self, k: nat, prev: Set<Seq<usize>>, next: Set<Seq<usize>>)
        requires
            k >= 3 ==> level_of(prev, (k - 1) as nat),
            self.set.wf(),
            self.switch > 2,
            self.tid.wf(),
            k >= self.switch ==> self.tid.tids() == tids_of(self.set.data(), candidates_of(prev)) && self.level@ == candidates_of(prev),
            k <= 1 || included(next, candidates_of(prev)),
        ensures
            self.ready(k + 1, next),
    {
        if k + 1 > self.switch {
            assert forall|s: Seq<usize>| #[trigger] self.level@.contains(s) implies crate::itemset::is_itemset(s) && s.len() == k by {
                lemma_candidate_shape(prev, (k - 1) as nat, s);
            }
        }
    }

    /// Constructor.
    pub fn new(set: TransactionSet, switch: usize) -> (r: Self)
        requires
            set.wf(),
            switch > 2,
        ensures
            r.shard() == set,
            r.switch() == switch,
            r.ready(1, Set::<Seq<usize>>::empty()),
    {
        Self { set, tid: TransactionIDs::default(), switch, level: Ghost(Set::empty()) }
    }

    /// Counts pass `n` over the shard from the frequent itemsets `c` of the
    /// previous pass: items, pairs, and then candidates, over the raw
    /// transactions before the switch pass and over TID entries from it on.
    pub fn run(&mut self, n: usize, c: &Candidates) -> (r: AprioriHashTree)
        requires
            old(self).ready(n as nat, c@),
            n >= 1,
            n == 2 ==> old(self).shard().num_items >= 1 && old(self).shard().num_items * (old(self).shard().num_items - 1) <= usize::MAX,
            n >= 3 ==> c.wf() && level_of(c@, (n - 1) as nat),
        ensures
            r.wf(),
            counts_support(r.entries(), pass_keys(old(self).shard().num_items as nat, n as nat, c@), old(self).shard().data()),
            final(self).shard() == old(self).shard(),
            final(self).switch() == old(self).switch(),
            forall|next: Set<Seq<usize>>| (n <= 1 || included(next, candidates_of(c@))) ==> #[trigger] final(self).ready((n + 1) as nat, next),
    {
        let ghost prev = c@;
        if n < self.switch {
            let tree = count_pass(&self.set, n, c);
            proof {
                assert forall|next: Set<Seq<usize>>| (n <= 1 || included(next, candidates_of(prev))) implies #[trigger] self.ready((n + 1) as nat, next) by {
                    self.lemma_ready_next(n as nat, prev, next);
                }
            }
            return tree;
        }
        if n == self.switch {
            proof {
                assert forall|x: int| 0 <= x < self.set.transactions@.len() implies crate::itemset::is_itemset(#[trigger] crate::itemset::views_of(self.set.transactions@)[x]) by {
                    assert(self.set.data()[x] == crate::itemset::views_of(self.set.transactions@)[x]);
                }
            }
            let (tree, b) = TransactionIDs::from_transaction(&self.set.transactions, n - 1, c);
            self.tid = b;
            self.level = Ghost(candidates_of(prev));
            proof {
                assert forall|cc: Seq<usize>| #[trigger] has_key(tree.entries(), cc) == pass_keys(self.set.num_items as nat, n as nat, prev).contains(cc) by {
                    if has_key(tree.entries(), cc) {
                        let p = choose|p: int| 0 <= p < tree.entries().len() && (#[trigger] tree.entries()[p]).0 == cc;
                    }
                }
                assert forall|next: Set<Seq<usize>>| (n <= 1 || included(next, candidates_of(prev))) implies #[trigger] self.ready((n + 1) as nat, next) by {
                    self.lemma_ready_next(n as nat, prev, next);
                }
            }
            return tree;
        }
        let ghost shard = self.set.data();
        let ghost lv = self.level@;
        proof {
            assert forall|i: int| 0 <= i < self.tid.tids().len() implies level_of(#[trigger] self.tid.tids()[i], (n - 1) as nat) by {
                lemma_tids_within(shard, lv, i);
            }
            assert(crate::transaction_id::tids_level(self.tid.tids(), (n - 1) as nat));
        }
        let (tree, b) = AprioriTiDCandidates::new(c).count_with_next(&self.tid);
        self.tid = b;
        self.level = Ghost(candidates_of(prev));
        proof {
            lemma_next_tids(shard, lv, prev, (n - 1) as nat);
            assert forall|cc: Seq<usize>| #[trigger] has_key(tree.entries(), cc) == pass_keys(self.set.num_items as nat, n as nat, prev).contains(cc) by {
                if has_key(tree.entries(), cc) {
                    let p = choose|p: int| 0 <= p < tree.entries().len() && (#[trigger] tree.entries()[p]).0 == cc;
                }
            }
            assert forall|p: int| 0 <= p < tree.entries().len() implies (#[trigger] tree.entries()[p]).1 == support(shard, tree.entries()[p].0) by {
                lemma_tid_support(shard, lv, prev, (n - 1) as nat, tree.entries()[p].0);
            }
            assert forall|next: Set<Seq<usize>>| (n <= 1 || included(next, candidates_of(prev))) implies #[trigger] self.ready((n + 1) as nat, next) by {
                self.lemma_ready_next(n as nat, prev, next);
            }
        }
        tree
    }
}

/// The data of the shards of the processes.
pub open spec fn process_data(v: Seq<CDProcessHybrid>) -> Seq<Seq<Seq<usize>>> {
    v.map_values(|p: CDProcessHybrid| p.shard().data())
}

/// Runs pass `k` on every process and merges the counts; returns the
/// processes, ready for the next pass, and the counted itemsets whose merged
/// count reaches `min_sup`.
fn hybrid_pass(procs: Vec<CDProcessHybrid>, n: usize, k: usize, c: &Candidates, min_sup: u64) -> (r: (Vec<CDProcessHybrid>, Candidates))
    requires
        procs@.len() >= 1,
        forall|j: int| 0 <= j < procs@.len() ==> (#[trigger] procs@[j]).ready(k as nat, c@) && procs@[j].shard().num_items == n,
        concat(process_data(procs@)).len() <= usize::MAX,
        k >= 1,
        k == 2 ==> n >= 1 && n * (n - 1) <= usize::MAX,
        k >= 3 ==> c.wf() && level_of(c@, (k - 1) as nat),
    ensures
        r.0@.len() == procs@.len(),
        process_data(r.0@) == process_data(procs@),
        forall|j: int| 0 <= j < r.0@.len() ==> (#[trigger] r.0@[j]).shard().num_items == n,
        forall|j: int, next: Set<Seq<usize>>| 0 <= j < r.0@.len() && (k <= 1 || included(next, candidates_of(c@))) ==> #[trigger] r.0@[j].ready((k + 1) as nat, next),
        r.1.wf(),
        r.1@ == Set::new(|s: Seq<usize>| pass_keys(n as nat, k as nat, c@).contains(s) && support(concat(process_data(procs@)), s) >= min_sup),
{
    let ghost sd = process_data(procs@);
    let ghost orig = procs@;
    let ghost keys = pass_keys(n as nat, k as nat, c@);
    let mut rest = procs;
    let mut done: Vec<CDProcessHybrid> = Vec::new();
    let mut p0 = rest.remove(0);
    assert(p0 == orig[0]);
    let mut acc = p0.run(k, c);
    done.push(p0);
    proof {
        assert(sd[0] == orig[0].shard().data());
        lemma_concat_step(sd, 0);
        assert(sd.take(0) =~= Seq::<Seq<Seq<usize>>>::empty());
        assert(concat(sd.take(1)) =~= sd[0]);
        assert(rest@ =~= orig.skip(1));
        assert(process_data(done@) =~= sd.take(1));
        assert forall|j: int, next: Set<Seq<usize>>| 0 <= j < done@.len() && (k <= 1 || included(next, candidates_of(c@))) implies #[trigger] done@[j].ready((k + 1) as nat, next) by {
            assert(done@[j] == p0);
        }
    }
    while rest.len() > 0
        invariant
            sd == process_data(orig),
            orig.len() >= 1,
            forall|j: int| 0 <= j < orig.len() ==> (#[trigger] orig[j]).ready(k as nat, c@) && orig[j].shard().num_items == n,
            concat(sd).len() <= usize::MAX,
            k >= 1,
            k == 2 ==> n >= 1 && n * (n - 1) <= usize::MAX,
            k >= 3 ==> c.wf() && level_of(c@, (k - 1) as nat),
            keys == pass_keys(n as nat, k as nat, c@),
            1 <= done@.len() <= orig.len(),
            rest@ == orig.skip(done@.len() as int),
            process_data(done@) == sd.take(done@.len() as int),
            forall|j: int| 0 <= j < done@.len() ==> (#[trigger] done@[j]).shard().num_items == n,
            forall|j: int, next: Set<Seq<usize>>| 0 <= j < done@.len() && (k <= 1 || included(next, candidates_of(c@))) ==> #[trigger] done@[j].ready((k + 1) as nat, next),
            acc.wf(),
            counts_support(acc.entries(), keys, concat(sd.take(done@.len() as int))),
        decreases rest@.len(),
    {
        let j = done.len();
        let mut p = rest.remove(0);
        assert(p == orig[j as int]);
        let t = p.run(k, c);
        let ghost before = acc.entries();
        proof {
            assert(sd[j as int] == orig[j as int].shard().data());
            lemma_concat_step(sd, j as int);
            lemma_concat_len(sd, j as int + 1);
            t.lemma_wf();
            assert forall|q: int| 0 <= q < before.len() implies (#[trigger] before[q]).1 + count_in(t.entries(), before[q].0) <= u64::MAX by {
                let cc = before[q].0;
                assert(has_key(before, cc));
                assert(has_key(t.entries(), cc));
                let x = choose|x: int| 0 <= x < t.entries().len() && (#[trigger] t.entries()[x]).0 == cc;
                crate::count_distribution::lemma_count_in_pub(t.entries(), x);
                crate::itemset::lemma_support_concat(concat(sd.take(j as int)), sd[j as int], cc);
                crate::itemset::lemma_support_bound(concat(sd.take(j as int + 1)), cc);
            }
        }
        merge_into(&mut acc, &t);
        let ghost old_done = done@;
        done.push(p);
        proof {
            assert(rest@ =~= orig.skip(done@.len() as int));
            assert(process_data(done@) =~= sd.take(done@.len() as int));
            assert forall|cc: Seq<usize>| #[trigger] has_key(acc.entries(), cc) == has_key(before, cc) by {
                if has_key(acc.entries(), cc) {
                    let q = choose|q: int| 0 <= q < acc.entries().len() && (#[trigger] acc.entries()[q]).0 == cc;
                    assert(before[q].0 == cc);
                }
                if has_key(before, cc) {
                    let q = choose|q: int| 0 <= q < before.len() && (#[trigger] before[q]).0 == cc;
                    assert(acc.entries()[q].0 == cc);
                }
            }
            assert forall|q: int| 0 <= q < acc.entries().len() implies (#[trigger] acc.entries()[q]).1 == support(concat(sd.take(j as int + 1)), acc.entries()[q].0) by {
                let cc = before[q].0;
                assert(has_key(before, cc));
                assert(has_key(t.entries(), cc));
                let x = choose|x: int| 0 <= x < t.entries().len() && (#[trigger] t.entries()[x]).0 == cc;
                crate::count_distribution::lemma_count_in_pub(t.entries(), x);
                crate::itemset::lemma_support_concat(concat(sd.take(j as int)), sd[j as int], cc);
                crate::itemset::lemma_support_bound(concat(sd.take(j as int + 1)), cc);
            }
            assert forall|jj: int, next: Set<Seq<usize>>| 0 <= jj < done@.len() && (k <= 1 || included(next, candidates_of(c@))) implies #[trigger] done@[jj].ready((k + 1) as nat, next) by {
                if jj < old_done.len() {
                    assert(done@[jj] == old_done[jj]);
                } else {
                    assert(done@[jj] == p);
                }
            }
        }
    }
    proof {
        assert(done@.len() == orig.len()) by {
            assert(orig.skip(done@.len() as int).len() == 0);
        }
        assert(sd.take(done@.len() as int) =~= sd);
    }
    let r = frequent_in(&acc, min_sup);
    proof {
        assert(r@ =~= Set::new(|s: Seq<usize>| keys.contains(s) && support(concat(sd), s) >= min_sup)) by {
            assert forall|s: Seq<usize>| keys.contains(s) && support(concat(sd), s) >= min_sup implies r@.contains(s) by {
                assert(has_key(acc.entries(), s));
                let q = choose|q: int| 0 <= q < acc.entries().len() && (#[trigger] acc.entries()[q]).0 == s;
            }
            assert forall|s: Seq<usize>| r@.contains(s) implies keys.contains(s) && support(concat(sd), s) >= min_sup by {
                let q = choose|q: int| 0 <= q < acc.entries().len() && (#[trigger] acc.entries()[q]).0 == s && acc.entries()[q].1 >= min_sup;
                assert(has_key(acc.entries(), s));
            }
        }
    }
    (done, r)
}

/// Count Distribution Hybrid: Count Distribution in which each shard counts
/// over its own TID entries from the switch pass on.
pub struct CountDistributionHybrid {
    /// The dataset.
    data: TransactionSet,
    /// Number of shards.
    threads: usize,
    /// Minimum support count.
    min_sup: u64,
    /// The pass at which the shards switch to TID entries.
    switch: usize,
}

impl CountDistributionHybrid {
    pub closed spec fn data(&self) -> TransactionSet {
        self.data
    }

    pub closed spec fn threads(&self) -> usize {
        self.threads
    }

    pub closed spec fn min_sup(&self) -> u64 {
        self.min_sup
    }

    pub closed spec fn switch(&self) -> usize {
        self.switch
    }

    /// Constructor.
    pub fn new(data: TransactionSet, threads: usize, min_sup: u64, switch: usize) -> (r: Self)
        requires
            switch > 2,
        ensures
            r.data() == data,
            r.threads() == threads,
            r.min_sup() == min_sup,
            r.switch() == switch,
    {
        Self { data, threads, min_sup, switch }
    }

    /// One process per shard.
    pub fn partitions(&self) -> (r: Vec<CDProcessHybrid>)
        requires
            self.threads() >= 1,
            self.data().wf(),
            self.switch() > 2,
        ensures
            r@.len() == self.threads(),
            concat(process_data(r@)) == self.data().data(),
            forall|j: int| 0 <= j < r@.len() ==> (#[trigger] r@[j]).ready(1, Set::<Seq<usize>>::empty()) && r@[j].shard().num_items == self.data().num_items,
    {
        let mut shards = partitions_of(&self.data, self.threads);
        let ghost sd = shard_data(shards@);
        let ghost orig = shards@;
        let mut v: Vec<CDProcessHybrid> = Vec::new();
        while shards.len() > 0
            invariant
                sd == shard_data(orig),
                concat(sd) == self.data().data(),
                forall|j: int| 0 <= j < orig.len() ==> (#[trigger] orig[j]).wf() && orig[j].num_items == self.data().num_items,
                self.switch() > 2,
                v@.len() + shards@.len() == orig.len(),
                shards@ == orig.skip(v@.len() as int),
                process_data(v@) == sd.take(v@.len() as int),
                forall|j: int| 0 <= j < v@.len() ==> (#[trigger] v@[j]).ready(1, Set::<Seq<usize>>::empty()) && v@[j].shard().num_items == self.data().num_items,
            decreases shards@.len(),
        {
            let j = v.len();
            let s = shards.remove(0);
            assert(s == orig[j as int]);
            let p = CDProcessHybrid::new(s, self.switch);
            let ghost old_v = v@;
            v.push(p);
            proof {
                assert(shards@ =~= orig.skip(v@.len() as int));
                assert(process_data(v@) =~= sd.take(v@.len() as int)) by {
                    assert(process_data(v@) =~= process_data(old_v).push(s.data()));
                    assert(sd.take(j as int + 1) =~= sd.take(j as int).push(sd[j as int]));
                }
            }
        }
        proof {
            assert(sd.take(v@.len() as int) =~= sd);
        }
        v
    }

    /// The frequent itemsets level by level.
    pub fn run(self) -> (r: Vec<Candidates>)
        requires
            self.threads() >= 1,
            self.data().wf(),
            self.switch() > 2,
            self.data().num_items < usize::MAX,
            self.data().num_items * (self.data().num_items - 1) <= usize::MAX,
        ensures
            forall|j: int| 0 <= j < r@.len() ==> (#[trigger] r@[j]).wf(),
            is_levels(self.data().data(), self.data().num_items as nat, self.min_sup() as nat, levels_of(r@)),
    {
        let ghost dv = self.data.data();
        let n = self.data.num_items;
        let min = self.min_sup;
        let procs = self.partitions();
        let ghost sd = process_data(procs@);
        let len = self.data.len();
        let mut v: Vec<Candidates> = Vec::new();
        let empty = Candidates::empty();
        proof {
            lemma_pass_keys_frequent(dv, n as nat, 1, min as nat, empty@);
        }
        let (procs, first) = hybrid_pass(procs, n, 1, &empty, min);
        if first.is_empty() {
            assert(levels_of(v@) =~= Seq::<Set<Seq<usize>>>::empty());
            return v;
        }
        proof {
            let c = first@.choose();
            assert(first@.contains(c));
            assert(c.len() == 1 && c[0] < n);
        }
        proof {
            assert forall|j: int| 0 <= j < procs@.len() implies (#[trigger] procs@[j]).ready(2, first@) by {
                let one: usize = 1;
                assert(procs@[j].ready((one + 1) as nat, first@));
            }
        }
        v.push(first);
        let mut procs = procs;
        let mut i: usize = 2;
        loop
            invariant
                min == self.min_sup(),
                dv == self.data().data(),
                n == self.data().num_items,
                n >= 1,
                n < usize::MAX,
                n * (n - 1) <= usize::MAX,
                len == dv.len(),
                procs@.len() >= 1,
                process_data(procs@) == sd,
                concat(sd) == dv,
                forall|j: int| 0 <= j < procs@.len() ==> (#[trigger] procs@[j]).ready(i as nat, v@[i - 2]@) && procs@[j].shard().num_items == n,
                2 <= i,
                i - 1 <= n,
                v@.len() == i - 1,
                forall|j: int| 0 <= j < v@.len() ==> (#[trigger] v@[j]).wf(),
                forall|j: int| 0 <= j < v@.len() ==> (#[trigger] v@[j])@ == frequent(dv, n as nat, (j + 1) as nat, min as nat),
                forall|j: int| 0 <= j < v@.len() ==> (#[trigger] v@[j])@ != Set::<Seq<usize>>::empty(),
            decreases n + 2 - i,
        {
            let ghost prev_set = v@[i - 2]@;
            let (next_procs, next) = {
                let prev = &v[i - 2];
                proof {
                    lemma_frequent_level(dv, n as nat, (i - 1) as nat, min as nat);
                    lemma_pass_keys_frequent(dv, n as nat, i as nat, min as nat, prev@);
                }
                hybrid_pass(procs, n, i, prev, min)
            };
            procs = next_procs;
            if next.is_empty() {
                proof {
                    assert(next@ == frequent(dv, n as nat, i as nat, min as nat));
                    assert forall|j: int| 0 <= j < levels_of(v@).len() implies #[trigger] levels_of(v@)[j] == frequent(dv, n as nat, (j + 1) as nat, min as nat) by {
                        assert(levels_of(v@)[j] == v@[j]@);
                    }
                    assert forall|j: int| 0 <= j < levels_of(v@).len() implies (#[trigger] levels_of(v@)[j]) != Set::<Seq<usize>>::empty() by {
                        assert(levels_of(v@)[j] == v@[j]@);
                    }
                }
                return v;
            }
            proof {
                let c = next@.choose();
                assert(next@.contains(c));
                assert(next@ == frequent(dv, n as nat, i as nat, min as nat));
                lemma_size_bound(c, n as nat);
                crate::frequent::lemma_candidates_complete(dv, n as nat, i as nat, min as nat);
                assert(included(next@, candidates_of(prev_set))) by {
                    assert forall|s: Seq<usize>| #[trigger] next@.contains(s) implies candidates_of(prev_set).contains(s) by {
                        assert(Set::new(|c: Seq<usize>| is_candidate(frequent(dv, n as nat, (i - 1) as nat, min as nat), c) && support(dv, c) >= min).contains(s));
                    }
                }
            }
            v.push(next);
            proof {
                assert forall|j: int| 0 <= j < procs@.len() implies (#[trigger] procs@[j]).ready((i + 1) as nat, v@[i - 1]@) && procs@[j].shard().num_items == n by {
                }
            }
            i = i + 1;
        }
    }
}

} // verus!
