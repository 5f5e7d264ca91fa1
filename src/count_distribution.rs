use vstd::prelude::*;
use crate::itemset::{is_itemset, items_below, support, views_of, copy_itemset, lemma_support_concat, lemma_support_bound};
use crate::candidates::Candidates;
use crate::transaction_set::TransactionSet;
use crate::array2d::{Array2D, tri, lemma_pair_in_range, lemma_pair_index_injective};
use crate::hash_tree::{AprioriHashTree, has_key, keys_unique};
use crate::frequent::{frequent, is_k_itemset, is_candidate, level_of, is_levels, lemma_candidates_complete, lemma_size_bound, lemma_frequent_level};
use crate::apriori::{AprioriCandidates, apriori_run_one_count, apriori_run_two_count, frequent_in, levels_of};
use crate::transaction_id::candidates_of;

verus! {

/// The transactions of the shards, one after another.
pub open spec fn concat(shards: Seq<Seq<Seq<usize>>>) -> Seq<Seq<usize>>
    decreases shards.len(),
{
    if shards.len() == 0 {
        Seq::empty()
    } else {
        concat(shards.drop_last()) + shards.last()
    }
}

/// The data of each shard.
pub open spec fn shard_data(v: Seq<TransactionSet>) -> Seq<Seq<Seq<usize>>> {
    v.map_values(|t: TransactionSet| t.data())
}

/// The itemsets counted in pass `k`: all items, all pairs, then the
/// candidates joined and pruned from the previous frequent itemsets.
pub open spec fn pass_keys(n: nat, k: nat, prev: Set<Seq<usize>>) -> Set<Seq<usize>> {
    if k <= 2 {
        Set::new(|s: Seq<usize>| is_k_itemset(s, n, k))
    } else {
        candidates_of(prev)
    }
}

/// The counter `e` holds exactly `keys`, each with its support over `d`.
pub open spec fn counts_support(e: Seq<(Seq<usize>, u64)>, keys: Set<Seq<usize>>, d: Seq<Seq<usize>>) -> bool {
    &&& forall|c: Seq<usize>| #[trigger] has_key(e, c) == keys.contains(c)
    &&& forall|p: int| 0 <= p < e.len() ==> (#[trigger] e[p]).1 == support(d, e[p].0)
}

/// The counter of `c` in `e`, or 0.
pub open spec fn count_in(e: Seq<(Seq<usize>, u64)>, c: Seq<usize>) -> nat {
    if has_key(e, c) {
        e[choose|p: int| 0 <= p < e.len() && (#[trigger] e[p]).0 == c].1 as nat
    } else {
        0
    }
}

pub proof fn lemma_count_in_pub(e: Seq<(Seq<usize>, u64)>, p: int)
    requires
        keys_unique(e),
        0 <= p < e.len(),
    ensures
        count_in(e, e[p].0) == e[p].1,
{
    let q = choose|q: int| 0 <= q < e.len() && (#[trigger] e[q]).0 == e[p].0;
    if q != p {
        if q < p {
            assert(e[q].0 != e[p].0);
        } else {
            assert(e[p].0 != e[q].0);
        }
    }
}

pub proof fn lemma_concat_step(s: Seq<Seq<Seq<usize>>>, j: int)
    requires
        0 <= j < s.len(),
    ensures
        concat(s.take(j + 1)) == concat(s.take(j)) + s[j],
{
    assert(s.take(j + 1).drop_last() =~= s.take(j));
}

pub proof fn lemma_concat_len(s: Seq<Seq<Seq<usize>>>, j: int)
    requires
        0 <= j <= s.len(),
    ensures
        concat(s.take(j)).len() <= concat(s).len(),
    decreases s.len() - j,
{
    if j < s.len() {
        lemma_concat_len(s, j + 1);
        lemma_concat_step(s, j);
    } else {
        assert(s.take(j) =~= s);
    }
}

/// Adds to each counter of `acc` the counter of the same itemset in `other`.
pub fn merge_into(acc: &mut AprioriHashTree, other: &AprioriHashTree)
    requires
        old(acc).wf(),
        other.wf(),
        forall|p: int| 0 <= p < old(acc).entries().len() ==> (#[trigger] old(acc).entries()[p]).1 + count_in(other.entries(), old(acc).entries()[p].0) <= u64::MAX,
    ensures
        final(acc).wf(),
        final(acc).entries().len() == old(acc).entries().len(),
        forall|p: int| 0 <= p < old(acc).entries().len() ==> #[trigger] final(acc).entries()[p] == (
            old(acc).entries()[p].0,
            (old(acc).entries()[p].1 + count_in(other.entries(), old(acc).entries()[p].0)) as u64,
        ),
{
    let ghost e0 = acc.entries();
    let ghost oe = other.entries();
    proof {
        acc.lemma_wf();
        other.lemma_wf();
    }
    let n = acc.len();
    let mut p: usize = 0;
    while p < n
        invariant
            acc.wf(),
            other.wf(),
            e0 == old(acc).entries(),
            oe == other.entries(),
            keys_unique(oe),
            forall|x: int| 0 <= x < e0.len() ==> (#[trigger] e0[x]).0.len() > 0,
            forall|x: int| 0 <= x < e0.len() ==> (#[trigger] e0[x]).1 + count_in(oe, e0[x].0) <= u64::MAX,
            n == e0.len(),
            0 <= p <= n,
            acc.entries().len() == n,
            forall|x: int| 0 <= x < n ==> #[trigger] acc.entries()[x] == (
                e0[x].0,
                (e0[x].1 + if x < p { count_in(oe, e0[x].0) } else { 0 }) as u64,
            ),
        decreases n - p,
    {
        let key = acc.key_at(p);
        assert(key@ == e0[p as int].0);
        match other.get_count(key) {
            Some(c) => {
                proof {
                    let q = choose|q: int| 0 <= q < oe.len() && (#[trigger] oe[q]) == (key@, c);
                    lemma_count_in_pub(oe, q);
                }
                acc.add_at(p, c);
            },
            None => {},
        }
        p = p + 1;
    }
}

fn single(x: usize) -> (r: Vec<usize>)
    ensures
        r@ == seq![x],
{
    let mut r: Vec<usize> = Vec::new();
    r.push(x);
    assert(r@ =~= seq![x]);
    r
}

fn two(a: usize, b: usize) -> (r: Vec<usize>)
    ensures
        r@ == seq![a, b],
{
    let mut r: Vec<usize> = Vec::new();
    r.push(a);
    r.push(b);
    assert(r@ =~= seq![a, b]);
    r
}

/// The entries of each counting table.
pub open spec fn table_entries(v: Seq<AprioriHashTree>) -> Seq<Seq<(Seq<usize>, u64)>> {
    v.map_values(|t: AprioriHashTree| t.entries())
}

/// The counters of `c` summed over the tables.
pub open spec fn summed(tables: Seq<Seq<(Seq<usize>, u64)>>, c: Seq<usize>) -> nat
    decreases tables.len(),
{
    if tables.len() == 0 {
        0
    } else {
        summed(tables.drop_last(), c) + count_in(tables.last(), c)
    }
}

/// Merges the counting tables of one pass, which hold the same itemsets, and
/// returns the itemsets whose summed counter reaches `min_sup`.
pub fn merge_level(tables: Vec<AprioriHashTree>, min_sup: u64) -> (r: Candidates)
    requires
        tables@.len() >= 1,
        forall|j: int| 0 <= j < tables@.len() ==> (#[trigger] tables@[j]).wf(),
        forall|j: int, c: Seq<usize>| 0 <= j < tables@.len() ==> #[trigger] has_key(tables@[j].entries(), c) == has_key(tables@[0].entries(), c),
        forall|c: Seq<usize>| #[trigger] has_key(tables@[0].entries(), c) ==> summed(table_entries(tables@), c) <= u64::MAX,
    ensures
        r.wf(),
        r@ == Set::new(|c: Seq<usize>| has_key(tables@[0].entries(), c) && summed(table_entries(tables@), c) >= min_sup),
{
    let ghost te = table_entries(tables@);
    let ghost e0 = tables@[0].entries();
    let mut rest = tables;
    let mut acc = rest.remove(0);
    proof {
        acc.lemma_wf();
        assert(te[0] == e0);
        assert(te.take(1).drop_last() =~= Seq::<Seq<(Seq<usize>, u64)>>::empty());
        assert(acc.entries() == e0);
        assert forall|p: int| 0 <= p < e0.len() implies #[trigger] acc.entries()[p] == (e0[p].0, summed(te.take(1), e0[p].0) as u64) by {
            lemma_count_in_pub(e0, p);
            assert(te.take(1).last() == e0);
            assert(summed(te.take(1).drop_last(), e0[p].0) == 0);
            assert(summed(te.take(1), e0[p].0) == count_in(e0, e0[p].0));
        }
    }
    let mut j: usize = 0;
    while j < rest.len()
        invariant
            te.len() == rest@.len() + 1,
            forall|x: int| 0 <= x < rest@.len() ==> (#[trigger] rest@[x]).wf() && rest@[x].entries() == te[x + 1],
            forall|x: int, c: Seq<usize>| 0 <= x < te.len() ==> #[trigger] has_key(te[x], c) == has_key(e0, c),
            forall|c: Seq<usize>| #[trigger] has_key(e0, c) ==> summed(te, c) <= u64::MAX,
            keys_unique(e0),
            0 <= j <= rest@.len(),
            acc.wf(),
            acc.entries().len() == e0.len(),
            forall|p: int| 0 <= p < e0.len() ==> #[trigger] acc.entries()[p] == (e0[p].0, summed(te.take(j as int + 1), e0[p].0) as u64),
        decreases rest.len() - j,
    {
        let ghost before = acc.entries();
        proof {
            assert forall|p: int| 0 <= p < before.len() implies (#[trigger] before[p]).1 + count_in(rest@[j as int].entries(), before[p].0) <= u64::MAX by {
                let c = e0[p].0;
                assert(has_key(e0, c));
                lemma_summed_take(te, c, j as int + 2);
                assert(te.take(j as int + 2).drop_last() =~= te.take(j as int + 1));
                assert(te.take(j as int + 2).last() == te[j as int + 1]);
                lemma_summed_take(te, c, j as int + 1);
            }
        }
        merge_into(&mut acc, &rest[j]);
        proof {
            assert forall|p: int| 0 <= p < e0.len() implies #[trigger] acc.entries()[p] == (e0[p].0, summed(te.take(j as int + 2), e0[p].0) as u64) by {
                let c = e0[p].0;
                assert(has_key(e0, c));
                assert(te.take(j as int + 2).drop_last() =~= te.take(j as int + 1));
                assert(te.take(j as int + 2).last() == te[j as int + 1]);
                lemma_summed_take(te, c, j as int + 2);
            }
        }
        j = j + 1;
    }
    proof {
        assert(te.take(j as int + 1) =~= te);
    }
    let r = frequent_in(&acc, min_sup);
    proof {
        assert(r@ =~= Set::new(|c: Seq<usize>| has_key(e0, c) && summed(te, c) >= min_sup)) by {
            assert forall|c: Seq<usize>| r@.contains(c) == (has_key(e0, c) && summed(te, c) >= min_sup) by {
                if has_key(e0, c) {
                    let p = choose|p: int| 0 <= p < e0.len() && (#[trigger] e0[p]).0 == c;
                    assert(acc.entries()[p].0 == c);
                }
                if r@.contains(c) {
                    let p = choose|p: int| 0 <= p < acc.entries().len() && (#[trigger] acc.entries()[p]).0 == c && acc.entries()[p].1 >= min_sup;
                    assert(e0[p].0 == c);
                }
            }
        }
    }
    r
}

/// A partial sum is at most the whole sum.
proof fn lemma_summed_take(te: Seq<Seq<(Seq<usize>, u64)>>, c: Seq<usize>, m: int)
    requires
        0 <= m <= te.len(),
    ensures
        summed(te.take(m), c) <= summed(te, c),
    decreases te.len() - m,
{
    if m < te.len() {
        lemma_summed_take(te, c, m + 1);
        assert(te.take(m + 1).drop_last() =~= te.take(m));
    } else {
        assert(te.take(m) =~= te);
    }
}

/// Counts pass `k` over one shard.
pub fn count_pass(shard: &TransactionSet, k: usize, prev: &Candidates) -> (r: AprioriHashTree)
    requires
        shard.wf(),
        k >= 1,
        k == 2 ==> shard.num_items >= 1 && shard.num_items * (shard.num_items - 1) <= usize::MAX,
        k >= 3 ==> prev.wf() && level_of(prev@, (k - 1) as nat),
    ensures
        r.wf(),
        counts_support(r.entries(), pass_keys(shard.num_items as nat, k as nat, prev@), shard.data()),
{
    let n = shard.num_items;
    let ghost dv = shard.data();
    let ghost keys = pass_keys(n as nat, k as nat, prev@);
    if k == 1 {
        let counts = apriori_run_one_count(shard);
        let mut tree = AprioriHashTree::new();
        let mut x: usize = 0;
        while x < n
            invariant
                0 <= x <= n,
                n == shard.num_items,
                counts@.len() == n,
                forall|y: int| 0 <= y < n ==> counts@[y] == support(dv, seq![y as usize]),
                tree.wf(),
                forall|c: Seq<usize>| #[trigger] has_key(tree.entries(), c) == (is_k_itemset(c, n as nat, 1) && c[0] < x),
                forall|p: int| 0 <= p < tree.entries().len() ==> (#[trigger] tree.entries()[p]).1 == support(dv, tree.entries()[p].0),
            decreases n - x,
        {
            let v = single(x);
            let ghost before = tree.entries();
            proof {
                if has_key(before, v@) {
                    assert(v@[0] == x);
                }
            }
            let added = tree.add_with(&v, counts[x]);
            proof {
                assert(added);
                assert(tree.entries() == before.push((v@, counts@[x as int])));
                crate::itemset::lemma_push_contains(before, (v@, counts@[x as int]));
                assert forall|c: Seq<usize>| #[trigger] has_key(tree.entries(), c) == (is_k_itemset(c, n as nat, 1) && c[0] < x + 1) by {
                    if has_key(tree.entries(), c) {
                        let p = choose|p: int| 0 <= p < tree.entries().len() && (#[trigger] tree.entries()[p]).0 == c;
                        if p < before.len() {
                            assert(before[p].0 == c);
                            assert(has_key(before, c));
                        } else {
                            assert(c == v@);
                            assert(c[0] == x);
                            assert(items_below(c, n as nat));
                            assert(is_itemset(c));
                        }
                    }
                    if is_k_itemset(c, n as nat, 1) && c[0] < x + 1 {
                        if c[0] == x {
                            assert(c =~= v@);
                            assert(tree.entries()[before.len() as int].0 == c);
                        } else {
                            assert(has_key(before, c));
                            let p = choose|p: int| 0 <= p < before.len() && (#[trigger] before[p]).0 == c;
                            assert(tree.entries()[p].0 == c);
                        }
                    }
                }
                assert(v@ == seq![x]);
            }
            x = x + 1;
        }
        proof {
            assert forall|c: Seq<usize>| #[trigger] has_key(tree.entries(), c) == keys.contains(c) by {}
        }
        tree
    } else if k == 2 {
        let second = apriori_run_two_count(shard);
        let cells = second.iter();
        let mut tree = AprioriHashTree::new();
        let mut i: usize = 0;
        while i < cells.len()
            invariant
                0 <= i <= cells@.len(),
                n == shard.num_items,
                second.wf(),
                second.rows() == n,
                cells@.len() == tri(n as nat),
                forall|q: int|
                    0 <= q < cells@.len() ==> {
                        let (row, col, v) = #[trigger] cells@[q];
                        &&& col < row < second.rows()
                        &&& tri(row as nat) + col == q
                        &&& v == second.at(row as nat, col as nat)
                    },
                forall|a: nat, b: nat|
                    b < a < n ==> #[trigger] second.at(a, b) == support(dv, seq![b as usize, a as usize]),
                tree.wf(),
                forall|c: Seq<usize>| #[trigger] has_key(tree.entries(), c) == (is_k_itemset(c, n as nat, 2) && tri(c[1] as nat) + c[0] < i),
                forall|p: int| 0 <= p < tree.entries().len() ==> (#[trigger] tree.entries()[p]).1 == support(dv, tree.entries()[p].0),
            decreases cells.len() - i,
        {
            let (row, col, count) = cells[i];
            assert(cells@[i as int] == (row, col, count));
            let v = two(col, row);
            let ghost before = tree.entries();
            proof {
                if has_key(before, v@) {
                    assert(v@[0] == col && v@[1] == row);
                }
            }
            let added = tree.add_with(&v, count);
            proof {
                assert(added);
                assert(tree.entries() == before.push((v@, count)));
                assert forall|c: Seq<usize>| #[trigger] has_key(tree.entries(), c) == (is_k_itemset(c, n as nat, 2) && tri(c[1] as nat) + c[0] < i + 1) by {
                    if has_key(tree.entries(), c) {
                        let p = choose|p: int| 0 <= p < tree.entries().len() && (#[trigger] tree.entries()[p]).0 == c;
                        if p < before.len() {
                            assert(before[p].0 == c);
                            assert(has_key(before, c));
                        } else {
                            assert(c == v@);
                            assert(c[0] == col && c[1] == row);
                            assert(is_itemset(c));
                            assert(items_below(c, n as nat));
                        }
                    }
                    if is_k_itemset(c, n as nat, 2) && tri(c[1] as nat) + c[0] < i + 1 {
                        if tri(c[1] as nat) + c[0] == i {
                            lemma_pair_index_injective(c[1] as nat, c[0] as nat, row as nat, col as nat);
                            assert(c =~= v@);
                            assert(tree.entries()[before.len() as int].0 == c);
                        } else {
                            assert(has_key(before, c));
                            let p = choose|p: int| 0 <= p < before.len() && (#[trigger] before[p]).0 == c;
                            assert(tree.entries()[p].0 == c);
                        }
                    }
                }
                assert(count == support(dv, seq![col, row]));
            }
            i = i + 1;
        }
        proof {
            assert forall|c: Seq<usize>| #[trigger] has_key(tree.entries(), c) == keys.contains(c) by {
                if is_k_itemset(c, n as nat, 2) {
                    lemma_pair_in_range(c[1] as nat, c[0] as nat, n as nat);
                }
            }
        }
        tree
    } else {
        let tree = AprioriCandidates::new(prev).run_count(shard, k);
        proof {
            assert forall|c: Seq<usize>| #[trigger] has_key(tree.entries(), c) == keys.contains(c) by {
                if has_key(tree.entries(), c) {
                    let p = choose|p: int| 0 <= p < tree.entries().len() && (#[trigger] tree.entries()[p]).0 == c;
                }
            }
        }
        tree
    }
}

/// Counts pass `k` over every shard and merges the counts; returns the
/// counted itemsets whose merged count reaches `min_sup`.
pub fn count_level(shards: &Vec<TransactionSet>, n: usize, k: usize, prev: &Candidates, min_sup: u64) -> (r: Candidates)
    requires
        shards@.len() >= 1,
        forall|j: int| 0 <= j < shards@.len() ==> (#[trigger] shards@[j]).wf() && shards@[j].num_items == n,
        concat(shard_data(shards@)).len() <= usize::MAX,
        k >= 1,
        k == 2 ==> n >= 1 && n * (n - 1) <= usize::MAX,
        k >= 3 ==> prev.wf() && level_of(prev@, (k - 1) as nat),
    ensures
        r.wf(),
        r@ == Set::new(|c: Seq<usize>| pass_keys(n as nat, k as nat, prev@).contains(c) && support(concat(shard_data(shards@)), c) >= min_sup),
{
    let ghost sd = shard_data(shards@);
    let ghost keys = pass_keys(n as nat, k as nat, prev@);
    let mut acc = count_pass(&shards[0], k, prev);
    proof {
        assert(sd[0] == shards@[0].data());
        assert(concat(sd.take(1)) =~= sd[0]) by {
            lemma_concat_step(sd, 0);
            assert(sd.take(0) =~= Seq::<Seq<Seq<usize>>>::empty());
        }
    }
    let mut j: usize = 1;
    while j < shards.len()
        invariant
            sd == shard_data(shards@),
            forall|x: int| 0 <= x < shards@.len() ==> (#[trigger] shards@[x]).wf() && shards@[x].num_items == n,
            concat(sd).len() <= usize::MAX,
            k >= 1,
            k == 2 ==> n >= 1 && n * (n - 1) <= usize::MAX,
            k >= 3 ==> prev.wf() && level_of(prev@, (k - 1) as nat),
            keys == pass_keys(n as nat, k as nat, prev@),
            1 <= j <= shards@.len(),
            acc.wf(),
            counts_support(acc.entries(), keys, concat(sd.take(j as int))),
        decreases shards.len() - j,
    {
        let t = count_pass(&shards[j], k, prev);
        let ghost before = acc.entries();
        proof {
            assert(sd[j as int] == shards@[j as int].data());
            lemma_concat_step(sd, j as int);
            lemma_concat_len(sd, j as int + 1);
            t.lemma_wf();
            assert forall|p: int| 0 <= p < before.len() implies (#[trigger] before[p]).1 + count_in(t.entries(), before[p].0) <= u64::MAX by {
                let c = before[p].0;
                assert(has_key(before, c));
                assert(keys.contains(c));
                assert(has_key(t.entries(), c));
                let q = choose|q: int| 0 <= q < t.entries().len() && (#[trigger] t.entries()[q]).0 == c;
                lemma_count_in_pub(t.entries(), q);
                lemma_support_concat(concat(sd.take(j as int)), sd[j as int], c);
                lemma_support_bound(concat(sd.take(j as int + 1)), c);
            }
        }
        merge_into(&mut acc, &t);
        proof {
            assert forall|c: Seq<usize>| #[trigger] has_key(acc.entries(), c) == has_key(before, c) by {
                if has_key(acc.entries(), c) {
                    let p = choose|p: int| 0 <= p < acc.entries().len() && (#[trigger] acc.entries()[p]).0 == c;
                    assert(before[p].0 == c);
                }
                if has_key(before, c) {
                    let p = choose|p: int| 0 <= p < before.len() && (#[trigger] before[p]).0 == c;
                    assert(acc.entries()[p].0 == c);
                }
            }
            assert forall|p: int| 0 <= p < acc.entries().len() implies (#[trigger] acc.entries()[p]).1 == support(concat(sd.take(j as int + 1)), acc.entries()[p].0) by {
                let c = before[p].0;
                assert(has_key(before, c));
                assert(has_key(t.entries(), c));
                let q = choose|q: int| 0 <= q < t.entries().len() && (#[trigger] t.entries()[q]).0 == c;
                lemma_count_in_pub(t.entries(), q);
                lemma_support_concat(concat(sd.take(j as int)), sd[j as int], c);
                lemma_support_bound(concat(sd.take(j as int + 1)), c);
            }
        }
        j = j + 1;
    }
    proof {
        assert(sd.take(j as int) =~= sd);
    }
    let r = frequent_in(&acc, min_sup);
    proof {
        assert(r@ =~= Set::new(|c: Seq<usize>| keys.contains(c) && support(concat(sd), c) >= min_sup)) by {
            assert forall|c: Seq<usize>| keys.contains(c) && support(concat(sd), c) >= min_sup implies r@.contains(c) by {
                assert(has_key(acc.entries(), c));
                let p = choose|p: int| 0 <= p < acc.entries().len() && (#[trigger] acc.entries()[p]).0 == c;
            }
            assert forall|c: Seq<usize>| r@.contains(c) implies keys.contains(c) && support(concat(sd), c) >= min_sup by {
                let p = choose|p: int| 0 <= p < acc.entries().len() && (#[trigger] acc.entries()[p]).0 == c && acc.entries()[p].1 >= min_sup;
                assert(has_key(acc.entries(), c));
            }
        }
    }
    r
}

/// The pass-`k` itemsets counted over the shards that reach `min` are the
/// frequent itemsets of size `k`, once the previous level is right.
pub proof fn lemma_pass_keys_frequent(d: Seq<Seq<usize>>, n: nat, k: nat, min: nat, prev: Set<Seq<usize>>)
    requires
        k >= 1,
        k >= 3 ==> prev == frequent(d, n, (k - 1) as nat, min),
    ensures
        Set::new(|c: Seq<usize>| pass_keys(n, k, prev).contains(c) && support(d, c) >= min) == frequent(d, n, k, min),
{
    if k >= 3 {
        lemma_candidates_complete(d, n, k, min);
    }
    assert(Set::new(|c: Seq<usize>| pass_keys(n, k, prev).contains(c) && support(d, c) >= min) =~= frequent(d, n, k, min));
}

/// Splits `data` into `threads` contiguous shards of `len / threads`
/// transactions; the last shard also takes the remainder.
pub fn partition_range(len: usize, threads: usize, thread: usize) -> (r: (usize, usize))
    requires
        threads >= 1,
        thread < threads,
    ensures
        r.0 == (len / threads) * thread,
        r.1 == if thread == threads - 1 { len as int } else { (len / threads) * (thread + 1) },
        r.0 <= r.1 <= len,
{
    let count = len / threads;
    proof {
        assert(count * threads <= len) by (nonlinear_arith)
            requires
                count == len / threads,
                threads >= 1,
        ;
        assert(count * thread <= count * (thread + 1)) by (nonlinear_arith);
        assert(count * (thread + 1) <= count * threads) by (nonlinear_arith)
            requires
                thread + 1 <= threads,
        ;
    }
    let start = count * thread;
    if thread == threads - 1 {
        (start, len)
    } else {
        (start, count * (thread + 1))
    }
}

/// The transactions `start .. end` of `data` as a dataset of their own.
pub fn slice_of(data: &TransactionSet, start: usize, end: usize) -> (r: TransactionSet)
    requires
        start <= end <= data.data().len(),
    ensures
        r.data() == data.data().subrange(start as int, end as int),
        r.num_items == data.num_items,
        data.wf() ==> r.wf(),
{
    let mut v: Vec<Vec<usize>> = Vec::new();
    let mut i: usize = start;
    while i < end
        invariant
            start <= i <= end,
            end <= data.transactions@.len(),
            views_of(v@) =~= views_of(data.transactions@).subrange(start as int, i as int),
        decreases end - i,
    {
        let t = copy_itemset(&data.transactions[i]);
        let ghost old_v = views_of(v@);
        v.push(t);
        assert(views_of(v@) =~= old_v.push(t@));
        i = i + 1;
    }
    TransactionSet::new(v, data.num_items)
}

/// Splits `data` into `threads` contiguous shards.
pub fn partitions_of(data: &TransactionSet, threads: usize) -> (r: Vec<TransactionSet>)
    requires
        threads >= 1,
        data.wf(),
    ensures
        r@.len() == threads,
        concat(shard_data(r@)) == data.data(),
        forall|j: int| 0 <= j < r@.len() ==> (#[trigger] r@[j]).wf() && r@[j].num_items == data.num_items,
        forall|j: int| 0 <= j < r@.len() ==> (#[trigger] r@[j]).data() == data.data().subrange(
            shard_range(data.data().len(), threads as nat, j as nat).0,
            shard_range(data.data().len(), threads as nat, j as nat).1,
        ),
{
    let len = data.len();
    let mut v: Vec<TransactionSet> = Vec::new();
    let mut t: usize = 0;
    while t < threads
        invariant
            threads >= 1,
            data.wf(),
            len == data.data().len(),
            0 <= t <= threads,
            v@.len() == t,
            forall|j: int| 0 <= j < v@.len() ==> (#[trigger] v@[j]).wf() && v@[j].num_items == data.num_items,
            forall|j: int| 0 <= j < v@.len() ==> (#[trigger] v@[j]).data() == data.data().subrange(
                shard_range(len as nat, threads as nat, j as nat).0,
                shard_range(len as nat, threads as nat, j as nat).1,
            ),
            t < threads ==> concat(shard_data(v@)) == data.data().subrange(0, (len / threads) * t),
            t == threads ==> concat(shard_data(v@)) == data.data(),
        decreases threads - t,
    {
        let (start, end) = partition_range(len, threads, t);
        let shard = slice_of(data, start, end);
        let ghost old_v = v@;
        v.push(shard);
        proof {
            assert forall|j: int| 0 <= j < v@.len() implies (#[trigger] v@[j]).data() == data.data().subrange(
                shard_range(len as nat, threads as nat, j as nat).0,
                shard_range(len as nat, threads as nat, j as nat).1,
            ) by {
                if j < old_v.len() {
                    assert(v@[j] == old_v[j]);
                }
            }
            assert(shard_data(v@) =~= shard_data(old_v).push(shard.data()));
            assert(shard_data(v@).drop_last() =~= shard_data(old_v));
            assert(data.data().subrange(0, start as int) + data.data().subrange(start as int, end as int) =~= data.data().subrange(0, end as int));
            if t + 1 == threads {
                assert(data.data().subrange(0, len as int) =~= data.data());
            }
        }
        t = t + 1;
    }
    v
}

/// The frequent-itemset levels of `data`, counting each pass over `threads`
/// shards and merging the counts.
pub fn run_sharded(data: &TransactionSet, threads: usize, min: u64) -> (r: Vec<Candidates>)
    requires
        threads >= 1,
        data.wf(),
        data.num_items < usize::MAX,
        data.num_items * (data.num_items - 1) <= usize::MAX,
    ensures
        forall|j: int| 0 <= j < r@.len() ==> (#[trigger] r@[j]).wf(),
        is_levels(data.data(), data.num_items as nat, min as nat, levels_of(r@)),
{
    let ghost dv = data.data();
    let n = data.num_items;
    let shards = partitions_of(data, threads);
    let len = data.len();
    let mut v: Vec<Candidates> = Vec::new();
    let empty = Candidates::empty();
    proof {
        lemma_pass_keys_frequent(dv, n as nat, 1, min as nat, empty@);
    }
    let first = count_level(&shards, n, 1, &empty, min);
    if first.is_empty() {
        assert(levels_of(v@) =~= Seq::<Set<Seq<usize>>>::empty());
        return v;
    }
    proof {
        let c = first@.choose();
        assert(first@.contains(c));
        assert(c.len() == 1 && c[0] < n);
    }
    v.push(first);
    let mut i: usize = 2;
    loop
        invariant
            data.wf(),
            dv == data.data(),
            n == data.num_items,
            n >= 1,
            n < usize::MAX,
            n * (n - 1) <= usize::MAX,
            len == dv.len(),
            shards@.len() == threads,
            threads >= 1,
            concat(shard_data(shards@)) == dv,
            forall|j: int| 0 <= j < shards@.len() ==> (#[trigger] shards@[j]).wf() && shards@[j].num_items == n,
            2 <= i,
            i - 1 <= n,
            v@.len() == i - 1,
            forall|j: int| 0 <= j < v@.len() ==> (#[trigger] v@[j]).wf(),
            forall|j: int| 0 <= j < v@.len() ==> (#[trigger] v@[j])@ == frequent(dv, n as nat, (j + 1) as nat, min as nat),
            forall|j: int| 0 <= j < v@.len() ==> (#[trigger] v@[j])@ != Set::<Seq<usize>>::empty(),
        decreases n + 2 - i,
    {
        let next = {
            let prev = &v[i - 2];
            proof {
                lemma_frequent_level(dv, n as nat, (i - 1) as nat, min as nat);
                lemma_pass_keys_frequent(dv, n as nat, i as nat, min as nat, prev@);
            }
            count_level(&shards, n, i, prev, min)
        };
        if next.is_empty() {
            proof {
                assert(next@ == frequent(dv, n as nat, i as nat, min as nat));
                assert forall|j: int| 0 <= j < levels_of(v@).len() implies #[trigger] levels_of(v@)[j] == frequent(dv, n as nat, (j + 1) as nat, min as nat) by {
                    assert(levels_of(v@)[j] == v@[j]@);
                }
                assert forall|j: int| 0 <= j < levels_of(v@).len() implies (#[trigger] levels_of(v@)[j]) != Set::<Seq<usize>>::empty() by {
                    assert(levels_of(v@)[j] == v@[j]@);
                }
            }
            return v;
        }
        proof {
            let c = next@.choose();
            assert(next@.contains(c));
            assert(next@ == frequent(dv, n as nat, i as nat, min as nat));
            lemma_size_bound(c, n as nat);
        }
        v.push(next);
        i = i + 1;
    }
}

/// The counting work of one shard for one pass.
pub struct CDProcess {
    /// The shard counted.
    data: TransactionSet,
    /// The frequent itemsets of the previous pass.
    candidates: Candidates,
}

impl CDProcess {
    pub closed spec fn data(&self) -> TransactionSet {
        self.data
    }

    pub closed spec fn candidates(&self) -> Candidates {
        self.candidates
    }

    /// Constructor.
    pub fn new(data: TransactionSet, candidates: Candidates) -> (r: Self)
        ensures
            r.data() == data,
            r.candidates() == candidates,
    {
        Self { data, candidates }
    }

    /// Counts pass `n >= 3` over the shard.
    pub fn run(self, n: usize) -> (r: AprioriHashTree)
        requires
            n > 2,
            self.data().wf(),
            self.candidates().wf(),
            level_of(self.candidates()@, (n - 1) as nat),
        ensures
            r.wf(),
            counts_support(r.entries(), candidates_of(self.candidates()@), self.data().data()),
    {
        count_pass(&self.data, n, &self.candidates)
    }

    /// Counts pass 1 over the shard: the support of each item.
    pub fn run_one(self) -> (r: Vec<u64>)
        requires
            self.data().wf(),
        ensures
            r@.len() == self.data().num_items,
            forall|x: int| 0 <= x < self.data().num_items ==> r@[x] == support(self.data().data(), seq![x as usize]),
    {
        apriori_run_one_count(&self.data)
    }

    /// Counts pass 2 over the shard: the support of each pair of items.
    pub fn run_two(self) -> (r: Array2D)
        requires
            self.data().wf(),
            self.data().num_items >= 1,
            self.data().num_items * (self.data().num_items - 1) <= usize::MAX,
        ensures
            r.wf(),
            r.rows() == self.data().num_items,
            forall|a: nat, b: nat|
                b < a < self.data().num_items ==> #[trigger] r.at(a, b) == support(self.data().data(), seq![b as usize, a as usize]),
    {
        apriori_run_two_count(&self.data)
    }
}

/// Count Distribution: Apriori with each pass counted over contiguous shards
/// of the dataset and the counts merged.
pub struct CountDistribution {
    /// The dataset.
    data: TransactionSet,
    /// Number of shards.
    threads: usize,
    /// Minimum support count.
    min_sup: u64,
}

impl CountDistribution {
    pub closed spec fn data(&self) -> TransactionSet {
        self.data
    }

    pub closed spec fn threads(&self) -> usize {
        self.threads
    }

    pub closed spec fn min_sup(&self) -> u64 {
        self.min_sup
    }

    /// Constructor.
    pub fn new(data: TransactionSet, threads: usize, min_sup: u64) -> (r: Self)
        ensures
            r.data() == data,
            r.threads() == threads,
            r.min_sup() == min_sup,
    {
        Self { data, threads, min_sup }
    }

    /// The frequent itemsets level by level.
    pub fn run(self) -> (r: Vec<Candidates>)
        requires
            self.threads() >= 1,
            self.data().wf(),
            self.data().num_items < usize::MAX,
            self.data().num_items * (self.data().num_items - 1) <= usize::MAX,
        ensures
            forall|j: int| 0 <= j < r@.len() ==> (#[trigger] r@[j]).wf(),
            is_levels(self.data().data(), self.data().num_items as nat, self.min_sup() as nat, levels_of(r@)),
    {
        run_sharded(&self.data, self.threads, self.min_sup)
    }

    /// The shards, one per thread.
    pub fn partitions(&self) -> (r: Vec<TransactionSet>)
        requires
            self.threads() >= 1,
            self.data().wf(),
        ensures
            r@.len() == self.threads(),
            concat(shard_data(r@)) == self.data().data(),
            forall|j: int| 0 <= j < r@.len() ==> (#[trigger] r@[j]).wf() && r@[j].num_items == self.data().num_items,
            forall|j: int| 0 <= j < r@.len() ==> (#[trigger] r@[j]).data() == self.data().data().subrange(
                shard_range(self.data().data().len(), self.threads() as nat, j as nat).0,
                shard_range(self.data().data().len(), self.threads() as nat, j as nat).1,
            ),
    {
        partitions_of(&self.data, self.threads)
    }

    /// The shard of thread `thread`.
    pub fn partition(&self, thread: usize) -> (r: TransactionSet)
        requires
            self.threads() >= 1,
            thread < self.threads(),
        ensures
            ({
                let (start, end) = shard_range(self.data().data().len(), self.threads() as nat, thread as nat);
                r.data() == self.data().data().subrange(start, end)
            }),
            r.num_items == self.data().num_items,
            self.data().wf() ==> r.wf(),
    {
        let (start, end) = partition_range(self.data.len(), self.threads, thread);
        slice_of(&self.data, start, end)
    }
}

/// Start and end of shard `thread` of `threads` over `len` transactions.
pub open spec fn shard_range(len: nat, threads: nat, thread: nat) -> (int, int) {
    let count = len / threads;
    ((count * thread) as int, if thread == threads - 1 { len as int } else { (count * (thread + 1)) as int })
}

/// Count Distribution over a dataset, as a second entry point.
pub struct CountDistrubtion {
    data: TransactionSet,
    threads: usize,
    min_sup: u64,
}

impl CountDistrubtion {
    pub closed spec fn data(&self) -> TransactionSet {
        self.data
    }

    pub closed spec fn threads(&self) -> usize {
        self.threads
    }

    pub closed spec fn min_sup(&self) -> u64 {
        self.min_sup
    }

    /// Constructor.
    pub fn new(data: TransactionSet, threads: usize, min_sup: u64) -> (r: Self)
        ensures
            r.data() == data,
            r.threads() == threads,
            r.min_sup() == min_sup,
    {
        Self { data, threads, min_sup }
    }

    /// The frequent itemsets level by level.
    pub fn run(self) -> (r: Vec<Candidates>)
        requires
            self.threads() >= 1,
            self.data().wf(),
            self.data().num_items < usize::MAX,
            self.data().num_items * (self.data().num_items - 1) <= usize::MAX,
        ensures
            forall|j: int| 0 <= j < r@.len() ==> (#[trigger] r@[j]).wf(),
            is_levels(self.data().data(), self.data().num_items as nat, self.min_sup() as nat, levels_of(r@)),
    {
        let levels = run_sharded(&self.data, self.threads, self.min_sup);
        levels
    }

    /// The shards, one per thread.
    pub fn partitions(&self) -> (r: Vec<TransactionSet>)
        requires
            self.threads() >= 1,
            self.data().wf(),
        ensures
            r@.len() == self.threads(),
            concat(shard_data(r@)) == self.data().data(),
            forall|j: int| 0 <= j < r@.len() ==> (#[trigger] r@[j]).wf() && r@[j].num_items == self.data().num_items,
            forall|j: int| 0 <= j < r@.len() ==> (#[trigger] r@[j]).data() == self.data().data().subrange(
                shard_range(self.data().data().len(), self.threads() as nat, j as nat).0,
                shard_range(self.data().data().len(), self.threads() as nat, j as nat).1,
            ),
    {
        partitions_of(&self.data, self.threads)
    }

    /// The shard of thread `thread`.
    pub fn partition(&self, thread: usize) -> (r: TransactionSet)
        requires
            self.threads() >= 1,
            thread < self.threads(),
        ensures
            ({
                let (start, end) = shard_range(self.data().data().len(), self.threads() as nat, thread as nat);
                r.data() == self.data().data().subrange(start, end)
            }),
            r.num_items == self.data().num_items,
            self.data().wf() ==> r.wf(),
    {
        let (start, end) = partition_range(self.data.len(), self.threads, thread);
        slice_of(&self.data, start, end)
    }
}

} // verus!
