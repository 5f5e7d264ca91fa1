use vstd::prelude::*;
use crate::itemset::{is_itemset, items_below, subset_of, support, lemma_support_step, lemma_support_bound, views_of};
use crate::transaction_set::TransactionSet;
use crate::array2d::Array2D;
use crate::candidates::Candidates;
use crate::frequent::{levels_so_far, frequent, is_k_itemset, is_candidate, joined, level_of, is_levels, lemma_candidate_shape, lemma_candidates_complete, lemma_remove_at, lemma_size_bound, lemma_empty_beyond, lemma_frequent_level};
use crate::itemset::remove_at;
use crate::hash_tree::entries_of;
use crate::candidates_func::join;
use crate::hash_tree::{AprioriHashTree, has_key};
use crate::utils::{nested_loops, is_k_subset};
use crate::itemset::{is_subset, copy_itemset, lemma_subset_len};

verus! {

proof fn lemma_single_subset(x: usize, t: Seq<usize>)
    ensures
        subset_of(seq![x], t) == t.contains(x),
{
    if t.contains(x) {
        assert forall|i: int| 0 <= i < 1 implies t.contains(#[trigger] seq![x][i]) by {
            assert(seq![x][i] == x);
        }
    } else {
        assert(seq![x][0] == x);
    }
}

proof fn lemma_pair_subset(lo: usize, hi: usize, t: Seq<usize>)
    ensures
        subset_of(seq![lo, hi], t) == (t.contains(lo) && t.contains(hi)),
{
    let s = seq![lo, hi];
    assert(s[0] == lo && s[1] == hi);
    if t.contains(lo) && t.contains(hi) {
        assert forall|i: int| 0 <= i < 2 implies t.contains(#[trigger] s[i]) by {
        }
    }
}

proof fn lemma_take_contains(s: Seq<usize>, i: int, x: usize)
    requires
        0 <= i < s.len(),
    ensures
        s.take(i + 1).contains(x) == (s.take(i).contains(x) || x == s[i]),
{
    if s.take(i + 1).contains(x) {
        let k = choose|k: int| 0 <= k < i + 1 && #[trigger] s.take(i + 1)[k] == x;
        if k < i {
            assert(s.take(i)[k] == x);
        }
    }
    if s.take(i).contains(x) {
        let k = choose|k: int| 0 <= k < i && #[trigger] s.take(i)[k] == x;
        assert(s.take(i + 1)[k] == x);
    }
    if x == s[i] {
        assert(s.take(i + 1)[i] == x);
    }
}

/// Pass 1: the support of each single item.
pub fn apriori_run_one_count(d: &TransactionSet) -> (r: Vec<u64>)
    requires
        d.wf(),
    ensures
        r@.len() == d.num_items,
        forall|x: int| 0 <= x < d.num_items ==> r@[x] == support(d.data(), seq![x as usize]),
{
    let n = d.num_items;
    let data = d.iter();
    let nd = data.len();
    let ghost dv = d.data();
    let mut first: Vec<u64> = Vec::new();
    let mut x: usize = 0;
    while x < n
        invariant
            0 <= x <= n,
            first@.len() == x,
            forall|y: int| 0 <= y < x ==> first@[y] == 0,
        decreases n - x,
    {
        first.push(0);
        x = x + 1;
    }
    assert forall|y: int| 0 <= y < n implies first@[y] == support(dv.take(0), seq![y as usize]) by {
        assert(dv.take(0).len() == 0);
    }
    let mut ti: usize = 0;
    while ti < data.len()
        invariant
            d.wf(),
            dv == d.data(),
            views_of(data@) == dv,
            nd == data@.len(),
            n == d.num_items,
            0 <= ti <= data@.len(),
            first@.len() == n,
            forall|y: int| 0 <= y < n ==> first@[y] == support(dv.take(ti as int), seq![y as usize]),
        decreases data.len() - ti,
    {
        let t = &data[ti];
        assert(t@ == dv[ti as int]);
        assert(is_itemset(t@) && items_below(t@, n as nat));
        let mut j: usize = 0;
        while j < t.len()
            invariant
                d.wf(),
                dv == d.data(),
                views_of(data@) == dv,
            nd == data@.len(),
                0 <= ti < data@.len(),
                t@ == dv[ti as int],
                is_itemset(t@),
                items_below(t@, n as nat),
                0 <= j <= t@.len(),
                first@.len() == n,
                forall|y: int|
                    0 <= y < n ==> first@[y] == support(dv.take(ti as int), seq![y as usize]) + if t@.take(j as int).contains(y as usize) {
                        1nat
                    } else {
                        0nat
                    },
            decreases t.len() - j,
        {
            let item = t[j];
            proof {
                lemma_support_bound(dv.take(ti as int), seq![item]);
                assert(!t@.take(j as int).contains(item)) by {
                    if t@.take(j as int).contains(item) {
                        let k = choose|k: int| 0 <= k < j && t@.take(j as int)[k] == item;
                        assert(t@[k] < t@[j as int]);
                    }
                }
                assert forall|y: int| 0 <= y < n implies #[trigger] t@.take(j as int + 1).contains(y as usize) == (t@.take(j as int).contains(y as usize) || y as usize == item) by {
                    lemma_take_contains(t@, j as int, y as usize);
                }
                assert(first@[item as int] == support(dv.take(ti as int), seq![item]));
                assert(dv.take(ti as int).len() == ti);
            }
            let c = first[item];
            first.set(item, c + 1);
            j = j + 1;
        }
        proof {
            assert(t@.take(t@.len() as int) =~= t@);
            assert forall|y: int| 0 <= y < n implies first@[y] == support(dv.take(ti as int + 1), seq![y as usize]) by {
                lemma_support_step(dv, seq![y as usize], ti as int);
                lemma_single_subset(y as usize, t@);
            }
        }
        ti = ti + 1;
    }
    assert(dv.take(data@.len() as int) =~= dv);
    first
}

/// Pass 2: the support of each pair of items, indexed by the pair.
pub fn apriori_run_two_count(d: &TransactionSet) -> (r: Array2D)
    requires
        d.wf(),
        d.num_items >= 1,
        d.num_items * (d.num_items - 1) <= usize::MAX,
    ensures
        r.wf(),
        r.rows() == d.num_items,
        forall|a: nat, b: nat|
            b < a < d.num_items ==> #[trigger] r.at(a, b) == support(d.data(), seq![b as usize, a as usize]),
{
    let n = d.num_items;
    let data = d.iter();
    let nd = data.len();
    let ghost dv = d.data();
    let mut second = Array2D::new(n);
    let mut ti: usize = 0;
    while ti < data.len()
        invariant
            d.wf(),
            dv == d.data(),
            views_of(data@) == dv,
            nd == data@.len(),
            n == d.num_items,
            0 <= ti <= data@.len(),
            second.wf(),
            second.rows() == n,
            forall|a: nat, b: nat|
                b < a < n ==> #[trigger] second.at(a, b) == support(dv.take(ti as int), seq![b as usize, a as usize]),
        decreases data.len() - ti,
    {
        let t = &data[ti];
        assert(t@ == dv[ti as int]);
        let mut i: usize = 0;
        while i < t.len()
            invariant
                d.wf(),
                dv == d.data(),
                views_of(data@) == dv,
                nd == data@.len(),
                0 <= ti < data@.len(),
                t@ == dv[ti as int],
                is_itemset(t@),
                items_below(t@, n as nat),
                0 <= i <= t@.len(),
                second.wf(),
                second.rows() == n,
                forall|a: nat, b: nat|
                    b < a < n ==> #[trigger] second.at(a, b) == support(dv.take(ti as int), seq![b as usize, a as usize]) + if t@.take(i as int).contains(a as usize) && t@.take(i as int).contains(b as usize) {
                        1nat
                    } else {
                        0nat
                    },
            decreases t.len() - i,
        {
            let mut j: usize = 0;
            while j < i
                invariant
                    d.wf(),
                    dv == d.data(),
                    views_of(data@) == dv,
                    nd == data@.len(),
                    0 <= ti < data@.len(),
                    t@ == dv[ti as int],
                    is_itemset(t@),
                    items_below(t@, n as nat),
                    0 <= j <= i < t@.len(),
                    second.wf(),
                    second.rows() == n,
                    forall|a: nat, b: nat|
                        b < a < n ==> #[trigger] second.at(a, b) == support(dv.take(ti as int), seq![b as usize, a as usize]) + if (t@.take(i as int).contains(a as usize) && t@.take(i as int).contains(b as usize)) || (a == t@[i as int] && t@.take(j as int).contains(b as usize)) {
                            1nat
                        } else {
                            0nat
                        },
                decreases i - j,
            {
                let hi = t[i];
                let lo = t[j];
                proof {
                    assert(lo < hi);
                    lemma_support_bound(dv.take(ti as int), seq![lo, hi]);
                    assert(!t@.take(i as int).contains(hi)) by {
                        if t@.take(i as int).contains(hi) {
                            let k = choose|k: int| 0 <= k < i && t@.take(i as int)[k] == hi;
                            assert(t@[k] < t@[i as int]);
                        }
                    }
                    assert(!t@.take(j as int).contains(lo)) by {
                        if t@.take(j as int).contains(lo) {
                            let k = choose|k: int| 0 <= k < j && t@.take(j as int)[k] == lo;
                            assert(t@[k] < t@[j as int]);
                        }
                    }
                    assert forall|b: usize| #[trigger] t@.take(j as int + 1).contains(b) == (t@.take(j as int).contains(b) || b == lo) by {
                        lemma_take_contains(t@, j as int, b);
                    }
                    assert(second.at(hi as nat, lo as nat) == support(dv.take(ti as int), seq![lo, hi]));
                    assert(dv.take(ti as int).len() == ti);
                }
                let ghost before = second;
                second.increment(hi, lo);
                proof {
                    assert forall|a: nat, b: nat| b < a < n implies #[trigger] second.at(a, b) == support(dv.take(ti as int), seq![b as usize, a as usize]) + if (t@.take(i as int).contains(a as usize) && t@.take(i as int).contains(b as usize)) || (a == t@[i as int] && t@.take(j as int + 1).contains(b as usize)) {
                            1nat
                        } else {
                            0nat
                        } by {
                        if a == hi && b == lo {
                        } else {
                            if crate::array2d::pair_index(a, b) == crate::array2d::pair_index(hi as nat, lo as nat) {
                                crate::array2d::lemma_pair_index_injective(a, b, hi as nat, lo as nat);
                            }
                            assert(before.at(a, b) == second.at(a, b));
                        }
                    }
                }
                j = j + 1;
            }
            proof {
                assert(t@.take(i as int + 1) =~= t@.take(i as int).push(t@[i as int]));
                assert forall|a: nat, b: nat| b < a < n implies #[trigger] second.at(a, b) == support(dv.take(ti as int), seq![b as usize, a as usize]) + if t@.take(i as int + 1).contains(a as usize) && t@.take(i as int + 1).contains(b as usize) {
                        1nat
                    } else {
                        0nat
                    } by {
                    lemma_take_contains(t@, i as int, a as usize);
                    lemma_take_contains(t@, i as int, b as usize);
                    if t@.take(i as int).contains(a as usize) && b == t@[i as int] {
                        let k = choose|k: int| 0 <= k < i && t@.take(i as int)[k] == a as usize;
                        assert(t@[k] < t@[i as int]);
                    }
                }
            }
            i = i + 1;
        }
        proof {
            assert(t@.take(t@.len() as int) =~= t@);
            assert forall|a: nat, b: nat| b < a < n implies #[trigger] second.at(a, b) == support(dv.take(ti as int + 1), seq![b as usize, a as usize]) by {
                lemma_support_step(dv, seq![b as usize, a as usize], ti as int);
                lemma_pair_subset(b as usize, a as usize, t@);
            }
        }
        ti = ti + 1;
    }
    assert(dv.take(data@.len() as int) =~= dv);
    second
}

fn singleton(x: usize) -> (r: Vec<usize>)
    ensures
        r@ == seq![x],
{
    let mut r: Vec<usize> = Vec::new();
    r.push(x);
    assert(r@ =~= seq![x]);
    r
}

fn pair(a: usize, b: usize) -> (r: Vec<usize>)
    ensures
        r@ == seq![a, b],
{
    let mut r: Vec<usize> = Vec::new();
    r.push(a);
    r.push(b);
    assert(r@ =~= seq![a, b]);
    r
}

/// Pass 1: the frequent single items.
pub fn apriori_run_one(d: &TransactionSet, min_sup: u64) -> (r: Candidates)
    requires
        d.wf(),
    ensures
        r.wf(),
        r@ == frequent(d.data(), d.num_items as nat, 1, min_sup as nat),
{
    let first = apriori_run_one_count(d);
    let n = d.num_items;
    let ghost dv = d.data();
    let mut v = Candidates::empty();
    let mut i: usize = 0;
    while i < n
        invariant
            0 <= i <= n,
            n == d.num_items,
            dv == d.data(),
            first@.len() == n,
            forall|x: int| 0 <= x < n ==> first@[x] == support(dv, seq![x as usize]),
            v.wf(),
            v@ == Set::new(|s: Seq<usize>| is_k_itemset(s, n as nat, 1) && s[0] < i && support(dv, s) >= min_sup),
        decreases n - i,
    {
        let ghost before = v@;
        if first[i] >= min_sup {
            v.insert(singleton(i));
        }
        proof {
            assert forall|s: Seq<usize>| #[trigger] v@.contains(s) == (is_k_itemset(s, n as nat, 1) && s[0] < i + 1 && support(dv, s) >= min_sup) by {
                if is_k_itemset(s, n as nat, 1) && s[0] == i {
                    assert(s =~= seq![i]);
                }
                if s == seq![i] {
                    assert(s[0] == i);
                    assert(is_itemset(s));
                    assert(items_below(s, n as nat));
                }
            }
            assert(v@ =~= Set::new(|s: Seq<usize>| is_k_itemset(s, n as nat, 1) && s[0] < i + 1 && support(dv, s) >= min_sup));
        }
        i = i + 1;
    }
    assert(v@ =~= frequent(dv, n as nat, 1, min_sup as nat));
    v
}

/// Pass 2: the frequent pairs of items.
pub fn apriori_run_two(d: &TransactionSet, min_sup: u64) -> (r: Candidates)
    requires
        d.wf(),
        d.num_items >= 1,
        d.num_items * (d.num_items - 1) <= usize::MAX,
    ensures
        r.wf(),
        r@ == frequent(d.data(), d.num_items as nat, 2, min_sup as nat),
{
    let second = apriori_run_two_count(d);
    let cells = second.iter();
    let n = d.num_items;
    let ghost dv = d.data();
    let mut v = Candidates::empty();
    let mut i: usize = 0;
    while i < cells.len()
        invariant
            0 <= i <= cells@.len(),
            n == d.num_items,
            dv == d.data(),
            second.wf(),
            second.rows() == n,
            cells@.len() == second.flat().len(),
            cells@.len() == crate::array2d::tri(n as nat),
            forall|k: int|
                0 <= k < cells@.len() ==> {
                    let (row, col, v) = #[trigger] cells@[k];
                    &&& col < row < second.rows()
                    &&& crate::array2d::tri(row as nat) + col == k
                    &&& v == second.at(row as nat, col as nat)
                },
            forall|a: nat, b: nat|
                b < a < n ==> #[trigger] second.at(a, b) == support(dv, seq![b as usize, a as usize]),
            v.wf(),
            v@ == Set::new(|s: Seq<usize>| is_k_itemset(s, n as nat, 2) && crate::array2d::tri(s[1] as nat) + s[0] < i && support(dv, s) >= min_sup),
        decreases cells.len() - i,
    {
        let (row, col, count) = cells[i];
        assert(cells@[i as int] == (row, col, count));
        if count >= min_sup {
            v.insert(pair(col, row));
        }
        proof {
            assert(count == support(dv, seq![col, row]));
            assert forall|s: Seq<usize>| #[trigger] v@.contains(s) == (is_k_itemset(s, n as nat, 2) && crate::array2d::tri(s[1] as nat) + s[0] < i + 1 && support(dv, s) >= min_sup) by {
                if is_k_itemset(s, n as nat, 2) && crate::array2d::tri(s[1] as nat) + s[0] == i {
                    crate::array2d::lemma_pair_index_injective(s[1] as nat, s[0] as nat, row as nat, col as nat);
                    assert(s =~= seq![col, row]);
                }
                if s == seq![col, row] {
                    assert(s[0] == col && s[1] == row);
                    assert(is_itemset(s));
                    assert(items_below(s, n as nat));
                }
            }
            assert(v@ =~= Set::new(|s: Seq<usize>| is_k_itemset(s, n as nat, 2) && crate::array2d::tri(s[1] as nat) + s[0] < i + 1 && support(dv, s) >= min_sup));
        }
        i = i + 1;
    }
    proof {
        assert forall|s: Seq<usize>| #[trigger] frequent(dv, n as nat, 2, min_sup as nat).contains(s) implies crate::array2d::tri(s[1] as nat) + s[0] < i by {
            crate::array2d::lemma_pair_in_range(s[1] as nat, s[0] as nat, n as nat);
        }
    }
    assert(v@ =~= frequent(dv, n as nat, 2, min_sup as nat));
    v
}

/// Every key of the table is an itemset of size `k` and no counter is full.
pub open spec fn countable(e: Seq<(Seq<usize>, u64)>, k: nat) -> bool {
    forall|p: int|
        0 <= p < e.len() ==> is_itemset((#[trigger] e[p]).0) && e[p].0.len() == k && e[p].1 < u64::MAX
}

/// `new` is `old` with one added to the counter of each itemset inside `t`.
pub open spec fn counted(
    old: Seq<(Seq<usize>, u64)>,
    new: Seq<(Seq<usize>, u64)>,
    t: Seq<usize>,
) -> bool {
    &&& new.len() == old.len()
    &&& forall|p: int|
        0 <= p < old.len() ==> #[trigger] new[p] == (
            old[p].0,
            (old[p].1 + if subset_of(old[p].0, t) {
                1nat
            } else {
                0nat
            }) as u64,
        )
}

/// `hits` lists, once each, the keys of `e` that lie inside `t`.
pub open spec fn hits_of(e: Seq<(Seq<usize>, u64)>, t: Seq<usize>, hits: Seq<Seq<usize>>) -> bool {
    &&& hits.no_duplicates()
    &&& forall|c: Seq<usize>| #[trigger] hits.contains(c) == (has_key(e, c) && subset_of(c, t))
}

/// The two counting strategies agree: counting one transaction into the same
/// table leaves the same entries whichever way it is done.
pub proof fn lemma_counting_strategies_agree(
    old: Seq<(Seq<usize>, u64)>,
    by_subsets: Seq<(Seq<usize>, u64)>,
    by_candidates: Seq<(Seq<usize>, u64)>,
    t: Seq<usize>,
)
    requires
        counted(old, by_subsets, t),
        counted(old, by_candidates, t),
    ensures
        by_subsets == by_candidates,
{
    assert(by_subsets =~= by_candidates);
}

/// How much the pass-size combinations may outnumber the work of walking the
/// candidates before the scanner walks the candidates instead.
pub const STRATEGY_FACTOR: u64 = 13;

/// Counts the transaction `t` into `d` by enumerating the itemsets of size
/// `k` inside `t` and looking each up. Returns the itemsets counted.
pub fn count_by_subsets(t: &Vec<usize>, k: usize, d: &mut AprioriHashTree) -> (r: Vec<Vec<usize>>)
    requires
        k >= 1,
        old(d).wf(),
        is_itemset(t@),
        countable(old(d).entries(), k as nat),
    ensures
        final(d).wf(),
        counted(old(d).entries(), final(d).entries(), t@),
        hits_of(old(d).entries(), t@, views_of(r@)),
{
    let subsets = nested_loops(t, k);
    let ghost e0 = d.entries();
    let ghost sv = views_of(subsets@);
    proof {
        assert forall|x: int| 0 <= x < subsets@.len() implies (#[trigger] subsets@[x])@.len() > 0 by {
            assert(sv[x] == subsets@[x]@);
            assert(sv.contains(sv[x]));
        }
    }
    let hits = increment_all(&subsets, d);
    proof {
        assert forall|p: int| 0 <= p < e0.len() implies sv.contains(#[trigger] e0[p].0) == subset_of(e0[p].0, t@) by {
        }
        assert forall|c: Seq<usize>| has_key(e0, c) implies sv.contains(c) == subset_of(c, t@) by {
            let p = choose|p: int| 0 <= p < e0.len() && (#[trigger] e0[p]).0 == c;
            assert(sv.contains(e0[p].0) == subset_of(e0[p].0, t@));
        }
    }
    hits
}

/// Adds one to the counter of each itemset of `list` held in `d`.
/// Returns the itemsets of `list` that `d` holds.
pub fn increment_all(list: &Vec<Vec<usize>>, d: &mut AprioriHashTree) -> (r: Vec<Vec<usize>>)
    requires
        old(d).wf(),
        views_of(list@).no_duplicates(),
        forall|x: int| 0 <= x < list@.len() ==> (#[trigger] list@[x])@.len() > 0,
        forall|p: int| 0 <= p < old(d).entries().len() ==> (#[trigger] old(d).entries()[p]).1 < u64::MAX,
    ensures
        final(d).wf(),
        final(d).entries().len() == old(d).entries().len(),
        forall|p: int|
            0 <= p < old(d).entries().len() ==> #[trigger] final(d).entries()[p] == (
                old(d).entries()[p].0,
                (old(d).entries()[p].1 + if views_of(list@).contains(old(d).entries()[p].0) {
                    1nat
                } else {
                    0nat
                }) as u64,
            ),
        views_of(r@).no_duplicates(),
        forall|c: Seq<usize>| #[trigger] views_of(r@).contains(c) == (has_key(old(d).entries(), c) && views_of(list@).contains(c)),
{
    let subsets = list;
    let ghost e0 = d.entries();
    let ghost sv = views_of(subsets@);
    let mut hits: Vec<Vec<usize>> = Vec::new();
    let mut q: usize = 0;
    while q < subsets.len()
        invariant
            d.wf(),
            e0 == old(d).entries(),
            forall|p: int| 0 <= p < e0.len() ==> (#[trigger] e0[p]).1 < u64::MAX,
            sv == views_of(subsets@),
            sv.no_duplicates(),
            forall|x: int| 0 <= x < subsets@.len() ==> (#[trigger] subsets@[x])@.len() > 0,
            0 <= q <= subsets@.len(),
            d.entries().len() == e0.len(),
            forall|p: int|
                0 <= p < e0.len() ==> #[trigger] d.entries()[p] == (
                    e0[p].0,
                    (e0[p].1 + if sv.take(q as int).contains(e0[p].0) {
                        1nat
                    } else {
                        0nat
                    }) as u64,
                ),
            views_of(hits@).no_duplicates(),
            forall|c: Seq<usize>| #[trigger] views_of(hits@).contains(c) == (has_key(e0, c) && sv.take(q as int).contains(c)),
        decreases subsets.len() - q,
    {
        let c = &subsets[q];
        let ghost cv = sv[q as int];
        assert(c@ == cv);
        proof {
            assert forall|x: Seq<usize>| #[trigger] sv.take(q as int + 1).contains(x) == (sv.take(q as int).contains(x) || x == cv) by {
                if sv.take(q as int + 1).contains(x) {
                    let m = choose|m: int| 0 <= m < q + 1 && #[trigger] sv.take(q as int + 1)[m] == x;
                    if m < q {
                        assert(sv.take(q as int)[m] == x);
                    }
                }
                if sv.take(q as int).contains(x) {
                    let m = choose|m: int| 0 <= m < q && #[trigger] sv.take(q as int)[m] == x;
                    assert(sv.take(q as int + 1)[m] == x);
                }
                if x == cv {
                    assert(sv.take(q as int + 1)[q as int] == x);
                }
            }
            assert(!sv.take(q as int).contains(cv)) by {
                if sv.take(q as int).contains(cv) {
                    let m = choose|m: int| 0 <= m < q && #[trigger] sv.take(q as int)[m] == cv;
                    assert(sv[m] == sv[q as int]);
                }
            }
            assert forall|p: int| 0 <= p < d.entries().len() && (#[trigger] d.entries()[p]).0 == c@ implies d.entries()[p].1 < u64::MAX by {
                assert(e0[p].0 == cv);
            }
        }
        let ghost before = d.entries();
        let ghost hits_before = views_of(hits@);
        if d.increment(c) {
            hits.push(copy_itemset(c));
            proof {
                assert(views_of(hits@) =~= hits_before.push(cv));
                let p = choose|p: int| 0 <= p < before.len() && (#[trigger] before[p]).0 == cv;
                assert(e0[p].0 == cv);
                assert(has_key(e0, cv));
                assert(!hits_before.contains(cv));
                assert forall|x: Seq<usize>| #[trigger] views_of(hits@).contains(x) && x != cv implies hits_before.contains(x) by {
                    let m = choose|m: int| 0 <= m < views_of(hits@).len() && views_of(hits@)[m] == x;
                    assert(hits_before[m] == x);
                }
                assert forall|x: Seq<usize>| hits_before.contains(x) implies #[trigger] views_of(hits@).contains(x) by {
                    let m = choose|m: int| 0 <= m < hits_before.len() && hits_before[m] == x;
                    assert(views_of(hits@)[m] == x);
                }
                assert(views_of(hits@)[hits_before.len() as int] == cv);
            }
        } else {
            proof {
                assert(!has_key(e0, cv)) by {
                    if has_key(e0, cv) {
                        let p = choose|p: int| 0 <= p < e0.len() && (#[trigger] e0[p]).0 == cv;
                        assert(before[p].0 == cv);
                    }
                }
            }
        }
        q = q + 1;
    }
    proof {
        assert(sv.take(q as int) =~= sv);
    }
    hits
}

/// Counts the transaction `t` into `d` by testing each key of `d` against `t`.
/// Returns the itemsets counted.
pub fn count_by_candidates(t: &Vec<usize>, k: usize, d: &mut AprioriHashTree) -> (r: Vec<Vec<usize>>)
    requires
        old(d).wf(),
        is_itemset(t@),
        countable(old(d).entries(), k as nat),
    ensures
        final(d).wf(),
        counted(old(d).entries(), final(d).entries(), t@),
        hits_of(old(d).entries(), t@, views_of(r@)),
{
    let ghost e0 = d.entries();
    proof {
        d.lemma_wf();
    }
    let mut hits: Vec<Vec<usize>> = Vec::new();
    let n = d.len();
    let mut p: usize = 0;
    while p < n
        invariant
            d.wf(),
            e0 == old(d).entries(),
            crate::hash_tree::keys_unique(e0),
            countable(e0, k as nat),
            is_itemset(t@),
            n == e0.len(),
            0 <= p <= n,
            d.entries().len() == e0.len(),
            forall|x: int|
                0 <= x < e0.len() ==> #[trigger] d.entries()[x] == (
                    e0[x].0,
                    (e0[x].1 + if x < p && subset_of(e0[x].0, t@) {
                        1nat
                    } else {
                        0nat
                    }) as u64,
                ),
            views_of(hits@).no_duplicates(),
            forall|c: Seq<usize>| #[trigger] views_of(hits@).contains(c) == (exists|x: int| 0 <= x < p && e0[x].0 == c && subset_of(c, t@)),
        decreases n - p,
    {
        let key = d.key_at(p);
        assert(key@ == e0[p as int].0);
        if is_subset(key, t) {
            let c = copy_itemset(key);
            d.increment_at(p);
            let ghost hits_before = views_of(hits@);
            hits.push(c);
            proof {
                assert(views_of(hits@) =~= hits_before.push(c@));
                assert(!hits_before.contains(c@)) by {
                    if hits_before.contains(c@) {
                        let x = choose|x: int| 0 <= x < p && e0[x].0 == c@ && subset_of(c@, t@);
                        assert(e0[x].0 != e0[p as int].0);
                    }
                }
                assert forall|cc: Seq<usize>| #[trigger] views_of(hits@).contains(cc) == (exists|x: int| 0 <= x < p + 1 && e0[x].0 == cc && subset_of(cc, t@)) by {
                    if hits_before.contains(cc) {
                        let m = choose|m: int| 0 <= m < hits_before.len() && hits_before[m] == cc;
                        assert(views_of(hits@)[m] == cc);
                    }
                    if cc == c@ {
                        assert(views_of(hits@)[hits_before.len() as int] == cc);
                    }
                    if views_of(hits@).contains(cc) && cc != c@ {
                        let m = choose|m: int| 0 <= m < views_of(hits@).len() && views_of(hits@)[m] == cc;
                        assert(hits_before[m] == cc);
                    }
                }
            }
        } else {
            proof {
                assert forall|cc: Seq<usize>| #[trigger] views_of(hits@).contains(cc) == (exists|x: int| 0 <= x < p + 1 && e0[x].0 == cc && subset_of(cc, t@)) by {
                    if exists|x: int| 0 <= x < p + 1 && e0[x].0 == cc && subset_of(cc, t@) {
                        let x = choose|x: int| 0 <= x < p + 1 && e0[x].0 == cc && subset_of(cc, t@);
                        if x == p {
                            assert(false);
                        }
                    }
                }
            }
        }
        p = p + 1;
    }
    proof {
        assert forall|c: Seq<usize>| #[trigger] views_of(hits@).contains(c) == (has_key(e0, c) && subset_of(c, t@)) by {
            if has_key(e0, c) && subset_of(c, t@) {
                let x = choose|x: int| 0 <= x < e0.len() && (#[trigger] e0[x]).0 == c;
                assert(exists|x: int| 0 <= x < p && e0[x].0 == c && subset_of(c, t@));
            }
        }
    }
    hits
}

/// `a * b`, or `u64::MAX` where the product does not fit.
pub fn saturating_product(a: u64, b: u64) -> (r: u64)
    ensures
        a * b <= u64::MAX ==> r == a * b,
        a * b > u64::MAX ==> r == u64::MAX,
{
    match a.checked_mul(b) {
        Some(p) => p,
        None => u64::MAX,
    }
}

/// The number of combinations of `k` out of `n`.
pub open spec fn binom(n: nat, k: nat) -> nat
    decreases n,
{
    if k == 0 {
        1
    } else if n == 0 {
        0
    } else {
        binom((n - 1) as nat, (k - 1) as nat) + binom((n - 1) as nat, k)
    }
}

proof fn lemma_binom_zero(n: nat, k: nat)
    requires
        k > n,
    ensures
        binom(n, k) == 0,
    decreases n,
{
    if n > 0 {
        lemma_binom_zero((n - 1) as nat, (k - 1) as nat);
        lemma_binom_zero((n - 1) as nat, k);
    }
}

/// `C(n, i + 1) * (i + 1) == C(n, i) * (n - i)`.
proof fn lemma_binom_step(n: nat, i: nat)
    requires
        i < n,
    ensures
        binom(n, i + 1) * (i + 1) == binom(n, i) * (n - i) as nat,
    decreases n,
{
    let m = (n - 1) as nat;
    if i + 1 <= m {
        lemma_binom_step(m, i);
    } else {
        lemma_binom_zero(m, i + 1);
    }
    let a = binom(m, i);
    let b = binom(m, i + 1);
    assert(binom(n, i + 1) == a + b);
    assert(b * (i + 1) == a * (m - i) as nat) by {
        if i + 1 > m {
            assert(b == 0);
            assert(m - i == 0);
        }
    }
    if i == 0 {
        assert(binom(n, 0) == 1);
        assert(binom(m, 0) == 1);
        assert(a == 1);
        assert((a + b) * 1 == a * n) by (nonlinear_arith)
            requires
                b * 1 == a * m,
                n == m + 1,
                a == 1,
        ;
    } else {
        let c = binom(m, (i - 1) as nat);
        lemma_binom_step(m, (i - 1) as nat);
        assert(a * i == c * (m - (i - 1)) as nat);
        assert(binom(n, i) == c + a);
        assert((a + b) * (i + 1) == (c + a) * (n - i) as nat) by (nonlinear_arith)
            requires
                b * (i + 1) == a * (m - i),
                a * i == c * (m - i + 1),
                n == m + 1,
                i <= m,
        ;
    }
}

proof fn lemma_binom_symmetric(n: nat, k: nat)
    requires
        k <= n,
    ensures
        binom(n, k) == binom(n, (n - k) as nat),
    decreases n,
{
    if n > 0 && k > 0 && k < n {
        lemma_binom_symmetric((n - 1) as nat, (k - 1) as nat);
        lemma_binom_symmetric((n - 1) as nat, k);
        assert(binom(n, (n - k) as nat) == binom((n - 1) as nat, (n - k - 1) as nat) + binom((n - 1) as nat, (n - k) as nat));
    } else if k == n && n > 0 {
        lemma_binom_zero((n - 1) as nat, n);
        lemma_binom_full(n);
    } else if k == 0 && n > 0 {
        lemma_binom_zero((n - 1) as nat, n);
        lemma_binom_full(n);
    }
}

proof fn lemma_binom_full(n: nat)
    ensures
        binom(n, n) == 1,
    decreases n,
{
    if n > 0 {
        lemma_binom_full((n - 1) as nat);
        lemma_binom_zero((n - 1) as nat, n);
    }
}

/// Up to the middle, choosing more gives more combinations.
proof fn lemma_binom_grows(n: nat, i: nat, kk: nat)
    requires
        i <= kk,
        2 * kk <= n,
    ensures
        binom(n, i) <= binom(n, kk),
    decreases kk - i,
{
    if i < kk {
        lemma_binom_step(n, i);
        let a = binom(n, i);
        let b = binom(n, i + 1);
        assert(a <= b) by (nonlinear_arith)
            requires
                b * (i + 1) == a * (n - i),
                n - i >= i + 1,
        ;
        lemma_binom_grows(n, i + 1, kk);
    }
}

/// The number of combinations of `k` out of `n`, saturating at `u64::MAX`.
pub fn combination_estimate(n: usize, k: usize) -> (r: u64)
    requires
        k <= n,
    ensures
        binom(n as nat, k as nat) <= u64::MAX ==> r == binom(n as nat, k as nat),
        binom(n as nat, k as nat) > u64::MAX ==> r == u64::MAX,
        k == 0 || k == n ==> r == 1,
{
    let kk = if k <= n - k {
        k
    } else {
        n - k
    };
    proof {
        lemma_binom_symmetric(n as nat, k as nat);
        lemma_binom_full(n as nat);
        assert(binom(n as nat, 0) == 1);
    }
    let mut r: u64 = 1;
    let mut i: usize = 0;
    while i < kk
        invariant
            i <= kk,
            2 * kk <= n,
            kk == k || kk == n - k,
            binom(n as nat, k as nat) == binom(n as nat, kk as nat),
            r == binom(n as nat, i as nat),
        decreases kk - i,
    {
        proof {
            lemma_binom_step(n as nat, i as nat);
            lemma_binom_grows(n as nat, (i + 1) as nat, kk as nat);
            let a = r as int;
            let b = (n - i) as int;
            assert(0 <= a <= 0xffff_ffff_ffff_ffff);
            assert(0 <= b <= 0xffff_ffff_ffff_ffff);
            assert(a * b <= 0xffff_ffff_ffff_ffff_ffff_ffff_ffff_ffff) by (nonlinear_arith)
                requires
                    0 <= a <= 0xffff_ffff_ffff_ffff,
                    0 <= b <= 0xffff_ffff_ffff_ffff,
            ;
        }
        let p: u128 = (r as u128) * ((n - i) as u128);
        let next: u128 = p / ((i as u128) + 1);
        proof {
            let q = binom(n as nat, (i + 1) as nat);
            let d = (i + 1) as nat;
            assert(p as nat == q * d);
            assert((p as nat) / d == q) by (nonlinear_arith)
                requires
                    p as nat == q * d,
                    d > 0,
            ;
        }
        if next > u64::MAX as u128 {
            return u64::MAX;
        }
        r = next as u64;
        i = i + 1;
    }
    r
}

/// Counts the transaction `t` into `d` for pass size `k`, choosing between
/// enumerating the `k`-subsets of `t` and walking the keys of `d` by a cost
/// estimate. Both ways count the same. Returns the itemsets counted.
pub fn apriori_count(t: &Vec<usize>, k: usize, d: &mut AprioriHashTree) -> (r: Vec<Vec<usize>>)
    requires
        k >= 1,
        old(d).wf(),
        is_itemset(t@),
        countable(old(d).entries(), k as nat),
    ensures
        final(d).wf(),
        counted(old(d).entries(), final(d).entries(), t@),
        hits_of(old(d).entries(), t@, views_of(r@)),
{
    if t.len() < k {
        proof {
            let e = d.entries();
            assert forall|p: int| 0 <= p < e.len() implies !subset_of(#[trigger] e[p].0, t@) by {
                if subset_of(e[p].0, t@) {
                    lemma_subset_len(e[p].0, t@);
                }
            }
            assert(d.entries() =~= e);
            assert forall|c: Seq<usize>| !(has_key(e, c) && subset_of(c, t@)) by {
                if has_key(e, c) {
                    let p = choose|p: int| 0 <= p < e.len() && (#[trigger] e[p]).0 == c;
                    assert(!subset_of(e[p].0, t@));
                }
            }
            assert(views_of(Seq::<Vec<usize>>::empty()) =~= Seq::<Seq<usize>>::empty());
        }
        return Vec::new();
    }
    let combinations = combination_estimate(t.len(), k);
    let work = saturating_product(d.len() as u64, t.len() as u64);
    if work > saturating_product(combinations, STRATEGY_FACTOR) {
        count_by_subsets(t, k, d)
    } else {
        count_by_candidates(t, k, d)
    }
}

/// The keys of `tree` whose counter reaches `min_sup`.
pub fn frequent_in(tree: &AprioriHashTree, min_sup: u64) -> (r: Candidates)
    requires
        tree.wf(),
    ensures
        r.wf(),
        r@ == Set::new(|c: Seq<usize>| exists|p: int| 0 <= p < tree.entries().len() && (#[trigger] tree.entries()[p]).0 == c && tree.entries()[p].1 >= min_sup),
{
    let es = tree.to_vec();
    let ghost e = tree.entries();
    let mut set = Candidates::empty();
    let mut q: usize = 0;
    while q < es.len()
        invariant
            entries_of(es@) == e,
            0 <= q <= es@.len(),
            set.wf(),
            set@ == Set::new(|c: Seq<usize>| exists|x: int| 0 <= x < q && (#[trigger] e[x]).0 == c && e[x].1 >= min_sup),
        decreases es.len() - q,
    {
        assert(e[q as int] == (es@[q as int].0@, es@[q as int].1));
        if es[q].1 >= min_sup {
            set.insert(copy_itemset(&es[q].0));
        }
        assert(set@ =~= Set::new(|c: Seq<usize>| exists|x: int| 0 <= x < q + 1 && (#[trigger] e[x]).0 == c && e[x].1 >= min_sup));
        q = q + 1;
    }
    assert(set@ =~= Set::new(|c: Seq<usize>| exists|p: int| 0 <= p < e.len() && (#[trigger] e[p]).0 == c && e[p].1 >= min_sup));
    set
}

/// The itemset sets of a run, level by level.
pub open spec fn levels_of(v: Seq<Candidates>) -> Seq<Set<Seq<usize>>> {
    v.map_values(|c: Candidates| c@)
}

/// One step of the pass loop: a next level without itemsets ends the run,
/// any other is appended. Returns whether the run goes on. Given the levels
/// found so far and the frequent itemsets of the next size, the levels are
/// afterwards still those of a run, and complete once the run ends.
pub fn accept_level(levels: &mut Vec<Candidates>, next: Candidates) -> (more: bool)
    requires
        next.wf(),
    ensures
        more == (next@ != Set::<Seq<usize>>::empty()),
        more ==> final(levels)@ == old(levels)@.push(next),
        !more ==> final(levels)@ == old(levels)@,
        forall|d: Seq<Seq<usize>>, n: nat, min: nat|
            #[trigger] levels_so_far(d, n, min, levels_of(old(levels)@))
                && next@ == frequent(d, n, (old(levels)@.len() + 1) as nat, min)
                ==> (more ==> levels_so_far(d, n, min, levels_of(final(levels)@)))
                && (!more ==> is_levels(d, n, min, levels_of(final(levels)@))),
{
    let ghost before = levels@;
    if next.is_empty() {
        proof {
            assert forall|d: Seq<Seq<usize>>, n: nat, min: nat|
                #[trigger] levels_so_far(d, n, min, levels_of(before))
                    && next@ == frequent(d, n, (before.len() + 1) as nat, min)
                    implies is_levels(d, n, min, levels_of(levels@)) by {
                assert(levels_of(levels@).len() == before.len());
            }
        }
        return false;
    }
    levels.push(next);
    proof {
        assert(levels_of(levels@) =~= levels_of(before).push(next@));
        assert forall|d: Seq<Seq<usize>>, n: nat, min: nat|
            #[trigger] levels_so_far(d, n, min, levels_of(before))
                && next@ == frequent(d, n, (before.len() + 1) as nat, min)
                implies levels_so_far(d, n, min, levels_of(levels@)) by {
            assert forall|j: int| 0 <= j < levels_of(levels@).len() implies #[trigger] levels_of(levels@)[j] == frequent(d, n, (j + 1) as nat, min) by {
                if j < before.len() {
                    assert(levels_of(levels@)[j] == levels_of(before)[j]);
                }
            }
            assert forall|j: int| 0 <= j < levels_of(levels@).len() implies (#[trigger] levels_of(levels@)[j]) != Set::<Seq<usize>>::empty() by {
                if j < before.len() {
                    assert(levels_of(levels@)[j] == levels_of(before)[j]);
                }
            }
        }
    }
    true
}

/// The frequent itemsets of the previous pass, from which the candidates of
/// the next pass are joined and pruned.
pub struct AprioriCandidates<'a>(&'a Candidates);

impl<'a> AprioriCandidates<'a> {
    /// The previous frequent itemsets.
    pub closed spec fn prev(&self) -> Set<Seq<usize>> {
        self.0@
    }

    pub closed spec fn wf(&self) -> bool {
        self.0.wf()
    }

    /// Constructor.
    pub fn new(v: &'a Candidates) -> (r: Self)
        requires
            v.wf(),
        ensures
            r.prev() == v@,
            r.wf(),
    {
        Self(v)
    }

    /// Tests whether a subset of `v` one item smaller is missing from the
    /// previous itemsets. The subsets that leave out one of the last two items
    /// are the two that `v` was joined from, and are not tested.
    pub fn can_be_pruned(&self, v: &Vec<usize>) -> (r: bool)
        requires
            self.wf(),
        ensures
            r == (v@.len() >= 3 && exists|i: int| 0 <= i < v@.len() - 2 && !self.prev().contains(#[trigger] remove_at(v@, i))),
    {
        if v.len() < 3 {
            return false;
        }
        let mut arr: Vec<usize> = Vec::new();
        let mut k: usize = 1;
        while k < v.len()
            invariant
                1 <= k <= v@.len(),
                arr@ =~= v@.subrange(1, k as int),
            decreases v.len() - k,
        {
            arr.push(v[k]);
            k = k + 1;
        }
        assert(arr@ =~= remove_at(v@, 0));
        if !self.0.contains(&arr) {
            return true;
        }
        let mut i: usize = 0;
        while i < v.len() - 3
            invariant
                self.wf(),
                v@.len() >= 3,
                0 <= i <= v@.len() - 3,
                arr@ == remove_at(v@, i as int),
                forall|j: int| 0 <= j <= i ==> self.prev().contains(#[trigger] remove_at(v@, j)),
            decreases v.len() - 3 - i,
        {
            arr.set(i, v[i]);
            assert(arr@ =~= remove_at(v@, i as int + 1));
            if !self.0.contains(&arr) {
                return true;
            }
            i = i + 1;
        }
        false
    }

    /// A counting table holding, with counter 0, each itemset joined from the
    /// previous itemsets whose smaller subsets are all among them.
    pub fn create_tree(&self) -> (r: AprioriHashTree)
        requires
            self.wf(),
            exists|m: nat| m >= 1 && level_of(self.prev(), m),
        ensures
            r.wf(),
            forall|p: int| 0 <= p < r.entries().len() ==> (#[trigger] r.entries()[p]).1 == 0 && is_candidate(self.prev(), r.entries()[p].0),
            forall|c: Seq<usize>| is_candidate(self.prev(), c) ==> has_key(r.entries(), c),
    {
        let ghost m = choose|m: nat| m >= 1 && level_of(self.prev(), m);
        let items = self.0.as_vec();
        proof {
            assert forall|i: int| 0 <= i < items@.len() implies (#[trigger] items@[i])@.len() == m by {
                assert(views_of(items@)[i] == items@[i]@);
                assert(views_of(items@).to_set().contains(items@[i]@));
            }
        }
        let joins = join(items);
        let ghost prev = self.prev();
        let mut tree = AprioriHashTree::new();
        let mut q: usize = 0;
        while q < joins.len()
            invariant
                self.wf(),
                prev == self.prev(),
                prev == views_of(items@).to_set(),
                level_of(prev, m),
                m >= 1,
                forall|c: Seq<usize>| #[trigger] views_of(joins@).contains(c) == joined(prev, c),
                0 <= q <= joins@.len(),
                tree.wf(),
                forall|p: int| 0 <= p < tree.entries().len() ==> (#[trigger] tree.entries()[p]).1 == 0 && is_candidate(prev, tree.entries()[p].0),
                forall|x: int| 0 <= x < q && is_candidate(prev, #[trigger] views_of(joins@)[x]) ==> has_key(tree.entries(), views_of(joins@)[x]),
            decreases joins.len() - q,
        {
            let c = &joins[q];
            let ghost cv = views_of(joins@)[q as int];
            assert(c@ == cv);
            assert(views_of(joins@).contains(cv));
            assert(joined(prev, cv));
            let pruned = self.can_be_pruned(c);
            let ghost before = tree.entries();
            proof {
                if !pruned {
                    assert forall|i: int| 0 <= i < cv.len() implies prev.contains(#[trigger] remove_at(cv, i)) by {
                        if i == cv.len() - 1 {
                            assert(remove_at(cv, i) =~= cv.drop_last());
                        } else if i == cv.len() - 2 {
                            assert(remove_at(cv, i) =~= cv.subrange(0, cv.len() - 2).push(cv.last()));
                        }
                    }
                    assert(is_candidate(prev, cv));
                }
            }
            if !pruned {
                tree.add(c);
                proof {
                    if !has_key(before, cv) {
                        assert(tree.entries()[before.len() as int] == (cv, 0u64));
                    } else {
                        let p = choose|p: int| 0 <= p < before.len() && (#[trigger] before[p]).0 == cv;
                        assert(tree.entries()[p] == before[p]);
                    }
                    assert forall|x: int| 0 <= x < q && is_candidate(prev, #[trigger] views_of(joins@)[x]) implies has_key(tree.entries(), views_of(joins@)[x]) by {
                        let p = choose|p: int| 0 <= p < before.len() && (#[trigger] before[p]).0 == views_of(joins@)[x];
                        assert(tree.entries()[p] == before[p]);
                    }
                }
            } else {
                proof {
                    let i = choose|i: int| 0 <= i < cv.len() - 2 && !prev.contains(#[trigger] remove_at(cv, i));
                    assert(!is_candidate(prev, cv));
                }
            }
            q = q + 1;
        }
        proof {
            assert forall|c: Seq<usize>| is_candidate(prev, c) implies has_key(tree.entries(), c) by {
                assert(views_of(joins@).contains(c));
                let x = choose|x: int| 0 <= x < joins@.len() && views_of(joins@)[x] == c;
            }
        }
        tree
    }

    /// Counts the candidates of pass `i` over the dataset.
    pub fn run_count(&self, data: &TransactionSet, i: usize) -> (r: AprioriHashTree)
        requires
            self.wf(),
            data.wf(),
            i > 2,
            level_of(self.prev(), (i - 1) as nat),
        ensures
            r.wf(),
            forall|p: int| 0 <= p < r.entries().len() ==> is_candidate(self.prev(), (#[trigger] r.entries()[p]).0) && r.entries()[p].1 == support(data.data(), r.entries()[p].0),
            forall|c: Seq<usize>| is_candidate(self.prev(), c) ==> has_key(r.entries(), c),
    {
        let mut tree = self.create_tree();
        let ghost e0 = tree.entries();
        let ghost dv = data.data();
        let ghost prev = self.prev();
        let transactions = data.iter();
        let nd = transactions.len();
        proof {
            assert forall|p: int| 0 <= p < e0.len() implies is_itemset((#[trigger] e0[p]).0) && e0[p].0.len() == i by {
                lemma_candidate_shape(prev, (i - 1) as nat, e0[p].0);
            }
        }
        let mut ti: usize = 0;
        while ti < nd
            invariant
                data.wf(),
                dv == data.data(),
                views_of(transactions@) == dv,
                nd == transactions@.len(),
                0 <= ti <= nd,
                i > 2,
                tree.wf(),
                tree.entries().len() == e0.len(),
                forall|p: int| 0 <= p < e0.len() ==> is_itemset((#[trigger] e0[p]).0) && e0[p].0.len() == i,
                forall|p: int| 0 <= p < e0.len() ==> #[trigger] tree.entries()[p] == (e0[p].0, support(dv.take(ti as int), e0[p].0) as u64),
            decreases nd - ti,
        {
            let t = &transactions[ti];
            assert(t@ == dv[ti as int]);
            proof {
                assert forall|p: int| 0 <= p < tree.entries().len() implies is_itemset((#[trigger] tree.entries()[p]).0) && tree.entries()[p].0.len() == i && tree.entries()[p].1 < u64::MAX by {
                    crate::itemset::lemma_support_bound(dv.take(ti as int), e0[p].0);
                }
            }
            let ghost before = tree.entries();
            apriori_count(t, i, &mut tree);
            proof {
                assert forall|p: int| 0 <= p < e0.len() implies #[trigger] tree.entries()[p] == (e0[p].0, support(dv.take(ti as int + 1), e0[p].0) as u64) by {
                    lemma_support_step(dv, e0[p].0, ti as int);
                    assert(before[p] == (e0[p].0, support(dv.take(ti as int), e0[p].0) as u64));
                    crate::itemset::lemma_support_bound(dv.take(ti as int), e0[p].0);
                }
            }
            ti = ti + 1;
        }
        proof {
            assert(dv.take(nd as int) =~= dv);
            assert forall|c: Seq<usize>| is_candidate(prev, c) implies has_key(tree.entries(), c) by {
                let p = choose|p: int| 0 <= p < e0.len() && (#[trigger] e0[p]).0 == c;
                assert(tree.entries()[p].0 == c);
            }
            assert forall|p: int| 0 <= p < tree.entries().len() implies is_candidate(prev, (#[trigger] tree.entries()[p]).0) && tree.entries()[p].1 == support(dv, tree.entries()[p].0) by {
                crate::itemset::lemma_support_bound(dv, e0[p].0);
            }
        }
        tree
    }

    /// The frequent itemsets of pass `i`.
    pub fn run(&self, data: &TransactionSet, i: usize, min_sup: u64) -> (r: Candidates)
        requires
            self.wf(),
            data.wf(),
            i >= 1,
            i == 2 ==> data.num_items >= 1 && data.num_items * (data.num_items - 1) <= usize::MAX,
            i > 2 ==> level_of(self.prev(), (i - 1) as nat),
        ensures
            r.wf(),
            i <= 2 ==> r@ == frequent(data.data(), data.num_items as nat, i as nat, min_sup as nat),
            i > 2 ==> r@ == Set::new(|c: Seq<usize>| is_candidate(self.prev(), c) && support(data.data(), c) >= min_sup),
            i > 1 && self.prev() == frequent(data.data(), data.num_items as nat, (i - 1) as nat, min_sup as nat)
                ==> r@ == frequent(data.data(), data.num_items as nat, i as nat, min_sup as nat),
    {
        if i == 1 {
            return apriori_run_one(data, min_sup);
        } else if i == 2 {
            return apriori_run_two(data, min_sup);
        }
        let tree = self.run_count(data, i);
        let es = tree.to_vec();
        let ghost e = tree.entries();
        let ghost prev = self.prev();
        let ghost dv = data.data();
        let mut set = Candidates::empty();
        let mut q: usize = 0;
        while q < es.len()
            invariant
                entries_of(es@) == e,
                forall|p: int| 0 <= p < e.len() ==> is_candidate(prev, (#[trigger] e[p]).0) && e[p].1 == support(dv, e[p].0),
                0 <= q <= es@.len(),
                set.wf(),
                set@ == Set::new(|c: Seq<usize>| exists|x: int| 0 <= x < q && (#[trigger] e[x]).0 == c && e[x].1 >= min_sup),
            decreases es.len() - q,
        {
            assert(e[q as int] == (es@[q as int].0@, es@[q as int].1));
            if es[q].1 >= min_sup {
                set.insert(copy_itemset(&es[q].0));
            }
            assert(set@ =~= Set::new(|c: Seq<usize>| exists|x: int| 0 <= x < q + 1 && (#[trigger] e[x]).0 == c && e[x].1 >= min_sup));
            q = q + 1;
        }
        proof {
            assert(set@ =~= Set::new(|c: Seq<usize>| is_candidate(prev, c) && support(dv, c) >= min_sup)) by {
                assert forall|c: Seq<usize>| set@.contains(c) == (is_candidate(prev, c) && support(dv, c) >= min_sup) by {
                    if is_candidate(prev, c) && support(dv, c) >= min_sup {
                        let p = choose|p: int| 0 <= p < e.len() && (#[trigger] e[p]).0 == c;
                        assert(e[p].1 == support(dv, c));
                    }
                }
            }
            if prev == frequent(dv, data.num_items as nat, (i - 1) as nat, min_sup as nat) {
                lemma_candidates_complete(dv, data.num_items as nat, i as nat, min_sup as nat);
            }
        }
        set
    }
}

/// Runs the Apriori algorithm.
#[derive(Debug)]
pub struct Apriori {
    /// Minimum support count.
    min_support: u64,
}

impl Apriori {
    pub closed spec fn min_support(&self) -> u64 {
        self.min_support
    }

    /// Constructor.
    pub fn new(min_support: u64) -> (r: Self)
        ensures
            r.min_support() == min_support,
    {
        Apriori { min_support }
    }

    /// The frequent itemsets, level by level: level `j` holds those of size
    /// `j + 1`, and the levels stop before the first size with none.
    pub fn run(self, data: &TransactionSet) -> (r: Vec<Candidates>)
        requires
            data.wf(),
            data.num_items * (data.num_items - 1) <= usize::MAX,
        ensures
            forall|j: int| 0 <= j < r@.len() ==> (#[trigger] r@[j]).wf(),
            is_levels(data.data(), data.num_items as nat, self.min_support() as nat, levels_of(r@)),
    {
        let min = self.min_support;
        let ghost dv = data.data();
        let ghost n = data.num_items as nat;
        let mut v: Vec<Candidates> = Vec::new();
        let first = apriori_run_one(data, min);
        if first.is_empty() {
            assert(levels_of(v@) =~= Seq::<Set<Seq<usize>>>::empty());
            return v;
        }
        proof {
            let c = first@.choose();
            assert(first@.contains(c));
            assert(c.len() == 1 && c[0] < n);
        }
        v.push(first);
        let mut i: usize = 2;
        loop
            invariant
                min == self.min_support(),
                data.wf(),
                dv == data.data(),
                n == data.num_items,
                data.num_items >= 1,
                data.num_items * (data.num_items - 1) <= usize::MAX,
                2 <= i,
                i - 1 <= n,
                v@.len() == i - 1,
                forall|j: int| 0 <= j < v@.len() ==> (#[trigger] v@[j]).wf(),
                forall|j: int| 0 <= j < v@.len() ==> (#[trigger] v@[j])@ == frequent(dv, n, (j + 1) as nat, min as nat),
                forall|j: int| 0 <= j < v@.len() ==> (#[trigger] v@[j])@ != Set::<Seq<usize>>::empty(),
            decreases n + 2 - i,
        {
            let next = {
                let prev = &v[i - 2];
                proof { lemma_frequent_level(dv, n, (i - 1) as nat, min as nat); }
                AprioriCandidates::new(prev).run(data, i, min)
            };
            if next.is_empty() {
                proof {
                    assert(v@[i - 2]@ == frequent(dv, n, (i - 1) as nat, min as nat));
                    assert(next@ == frequent(dv, n, i as nat, min as nat));
                    assert(next@ == Set::<Seq<usize>>::empty());
                    assert(frequent(dv, n, (levels_of(v@).len() + 1) as nat, min as nat) == Set::<Seq<usize>>::empty());
                    assert(min == self.min_support());
                    assert(levels_of(v@).len() == v@.len());
                    assert forall|j: int| 0 <= j < levels_of(v@).len() implies #[trigger] levels_of(v@)[j] == frequent(dv, n, (j + 1) as nat, min as nat) by {
                        assert(levels_of(v@)[j] == v@[j]@);
                    }
                    assert forall|j: int| 0 <= j < levels_of(v@).len() implies (#[trigger] levels_of(v@)[j]) != Set::<Seq<usize>>::empty() by {
                        assert(levels_of(v@)[j] == v@[j]@);
                    }
                }
                return v;
            }
            proof {
                let c = next@.choose();
                assert(next@.contains(c));
                lemma_size_bound(c, n);
                assert(i + 1 <= usize::MAX) by (nonlinear_arith)
                    requires
                        i <= n,
                        n * (n - 1) <= usize::MAX,
                        n >= 1,
                ;
            }
            v.push(next);
            i = i + 1;
        }
    }

    /// Every frequent itemset once, smaller itemsets first; the streaming form
    /// of `run`.
    pub fn run_fn(self, data: &TransactionSet) -> (r: Vec<Vec<usize>>)
        requires
            data.wf(),
            data.num_items * (data.num_items - 1) <= usize::MAX,
        ensures
            forall|c: Seq<usize>| #[trigger] views_of(r@).contains(c) == (c.len() >= 1 && is_itemset(c) && items_below(c, data.num_items as nat) && support(data.data(), c) >= self.min_support()),
            views_of(r@).no_duplicates(),
            forall|a: int, b: int| 0 <= a < b < r@.len() ==> (#[trigger] r@[a])@.len() <= (#[trigger] r@[b])@.len(),
    {
        let min = self.min_support;
        let levels = self.run(data);
        flatten_levels(&levels, data, min)
    }
}

/// All itemsets of all levels, level after level.
pub(crate) fn flatten_levels(levels: &Vec<Candidates>, data: &TransactionSet, min_sup: u64) -> (r: Vec<Vec<usize>>)
    requires
        forall|j: int| 0 <= j < levels@.len() ==> (#[trigger] levels@[j]).wf(),
        is_levels(data.data(), data.num_items as nat, min_sup as nat, levels_of(levels@)),
    ensures
        forall|c: Seq<usize>| #[trigger] views_of(r@).contains(c) == (c.len() >= 1 && is_itemset(c) && items_below(c, data.num_items as nat) && support(data.data(), c) >= min_sup),
        views_of(r@).no_duplicates(),
        forall|a: int, b: int| 0 <= a < b < r@.len() ==> (#[trigger] r@[a])@.len() <= (#[trigger] r@[b])@.len(),
{
    let ghost min = min_sup as nat;
    let ghost dv = data.data();
    let ghost n = data.num_items as nat;
    let mut out: Vec<Vec<usize>> = Vec::new();
    let mut j: usize = 0;
    while j < levels.len()
        invariant
            0 <= j <= levels@.len(),
            forall|x: int| 0 <= x < levels@.len() ==> (#[trigger] levels@[x]).wf(),
            is_levels(dv, n, min, levels_of(levels@)),
            forall|c: Seq<usize>| #[trigger] views_of(out@).contains(c) == (exists|x: int| 0 <= x < j && levels@[x]@.contains(c)),
            views_of(out@).no_duplicates(),
            forall|x: int| 0 <= x < out@.len() ==> (#[trigger] out@[x])@.len() <= j,
            forall|a: int, b: int| 0 <= a < b < out@.len() ==> (#[trigger] out@[a])@.len() <= (#[trigger] out@[b])@.len(),
        decreases levels.len() - j,
    {
        let items = levels[j].as_vec();
        let mut q: usize = 0;
        let ghost base = views_of(out@);
        proof {
            assert forall|x: int| 0 <= x < base.len() implies (#[trigger] base[x]).len() <= j by {
                assert(base[x] == out@[x]@);
            }
            assert(levels_of(levels@)[j as int] == levels@[j as int]@);
            assert forall|x: int| 0 <= x < items@.len() implies (#[trigger] items@[x])@.len() == j + 1 by {
                assert(views_of(items@)[x] == items@[x]@);
                assert(views_of(items@).to_set().contains(items@[x]@));
            }
        }
        while q < items.len()
            invariant
                0 <= q <= items@.len(),
                0 <= j < levels@.len(),
                views_of(items@).to_set() == levels@[j as int]@,
                views_of(items@).no_duplicates(),
                forall|x: int| 0 <= x < items@.len() ==> (#[trigger] items@[x])@.len() == j + 1,
                forall|x: int| 0 <= x < base.len() ==> (#[trigger] base[x]).len() <= j,
                forall|c: Seq<usize>| #[trigger] views_of(out@).contains(c) == (base.contains(c) || views_of(items@).take(q as int).contains(c)),
                views_of(out@).no_duplicates(),
                forall|x: int| 0 <= x < out@.len() ==> (#[trigger] out@[x])@.len() <= j + 1,
                forall|a: int, b: int| 0 <= a < b < out@.len() ==> (#[trigger] out@[a])@.len() <= (#[trigger] out@[b])@.len(),
            decreases items.len() - q,
        {
            let ghost prev_out = views_of(out@);
            let ghost prev_raw = out@;
            out.push(copy_itemset(&items[q]));
            proof {
                let c = items@[q as int]@;
                assert(!prev_out.contains(c)) by {
                    if prev_out.contains(c) {
                        if base.contains(c) {
                            let x = choose|x: int| 0 <= x < base.len() && base[x] == c;
                        } else {
                            let x = choose|x: int| 0 <= x < q && views_of(items@).take(q as int)[x] == c;
                            assert(views_of(items@)[x] == views_of(items@)[q as int]);
                        }
                    }
                }
                assert forall|x: int| 0 <= x < out@.len() implies (#[trigger] out@[x])@.len() <= j + 1 by {
                    if x < prev_raw.len() {
                        assert(out@[x] == prev_raw[x]);
                    }
                }
                assert forall|a: int, b: int| 0 <= a < b < out@.len() implies (#[trigger] out@[a])@.len() <= (#[trigger] out@[b])@.len() by {
                    assert(out@[a] == prev_raw[a]);
                    if b < prev_raw.len() {
                        assert(out@[b] == prev_raw[b]);
                    }
                }
                assert(views_of(out@) =~= prev_out.push(items@[q as int]@));
                assert(views_of(items@).take(q as int + 1) =~= views_of(items@).take(q as int).push(items@[q as int]@));
                crate::itemset::lemma_push_contains(prev_out, items@[q as int]@);
                crate::itemset::lemma_push_contains(views_of(items@).take(q as int), items@[q as int]@);
            }
            q = q + 1;
        }
        proof {
            assert(views_of(items@).take(q as int) =~= views_of(items@));
            assert forall|x: int| 0 <= x < out@.len() implies (#[trigger] out@[x])@.len() <= j + 1 by {}
            assert forall|c: Seq<usize>| #[trigger] views_of(out@).contains(c) == (exists|x: int| 0 <= x < j + 1 && levels@[x]@.contains(c)) by {
                if views_of(items@).contains(c) {
                    assert(levels@[j as int]@.contains(c));
                }
                if levels@[j as int]@.contains(c) {
                    assert(views_of(items@).to_set().contains(c));
                }
            }
        }
        j = j + 1;
    }
    proof {
        assert forall|c: Seq<usize>| #[trigger] views_of(out@).contains(c) == (c.len() >= 1 && is_itemset(c) && items_below(c, n) && support(dv, c) >= min) by {
            if exists|x: int| 0 <= x < j && levels@[x]@.contains(c) {
                let x = choose|x: int| 0 <= x < j && levels@[x]@.contains(c);
                assert(levels_of(levels@)[x] == levels@[x]@);
            }
            if c.len() >= 1 && is_itemset(c) && items_below(c, n) && support(dv, c) >= min {
                let k = c.len();
                assert(frequent(dv, n, k as nat, min).contains(c));
                if k <= levels@.len() {
                    assert(levels_of(levels@)[k - 1] == levels@[k - 1]@);
                } else {
                    lemma_empty_beyond(dv, n, (levels@.len() + 1) as nat, k as nat, min);
                }
            }
        }
    }
    out
}

} // verus!
