use vstd::prelude::*;
use crate::itemset::{is_itemset, items_below, remove_at, subset_of, support, lemma_support_antimonotone, lemma_support_bound, lemma_subset_len};

verus! {

/// `s` is an itemset of size `k` over the items `0 .. n`.
pub open spec fn is_k_itemset(s: Seq<usize>, n: nat, k: nat) -> bool {
    is_itemset(s) && items_below(s, n) && s.len() == k
}

/// The frequent itemsets of size `k`: those whose support reaches `min`.
pub open spec fn frequent(data: Seq<Seq<usize>>, n: nat, k: nat, min: nat) -> Set<Seq<usize>> {
    Set::new(|s: Seq<usize>| is_k_itemset(s, n, k) && support(data, s) >= min)
}

/// `c` is the join of two members of `prev` that share all items but the last.
pub open spec fn joined(prev: Set<Seq<usize>>, c: Seq<usize>) -> bool {
    &&& c.len() >= 2
    &&& c[c.len() - 2] < c[c.len() - 1]
    &&& prev.contains(c.drop_last())
    &&& prev.contains(c.subrange(0, c.len() - 2).push(c.last()))
}

/// `c` is joined from `prev` and each subset of `c` one item smaller is in `prev`.
pub open spec fn is_candidate(prev: Set<Seq<usize>>, c: Seq<usize>) -> bool {
    joined(prev, c) && forall|i: int| 0 <= i < c.len() ==> prev.contains(#[trigger] remove_at(c, i))
}

/// The levels of a mining run: level `j` holds the frequent itemsets of size
/// `j + 1`, every level is nonempty, and the next size has none.
pub open spec fn is_levels(
    data: Seq<Seq<usize>>,
    n: nat,
    min: nat,
    levels: Seq<Set<Seq<usize>>>,
) -> bool {
    &&& forall|j: int| 0 <= j < levels.len() ==> #[trigger] levels[j] == frequent(data, n, (j + 1) as nat, min)
    &&& forall|j: int| 0 <= j < levels.len() ==> (#[trigger] levels[j]) != Set::<Seq<usize>>::empty()
    &&& frequent(data, n, (levels.len() + 1) as nat, min) == Set::<Seq<usize>>::empty()
}

/// Two itemsets of one size that differ in their last item only.
pub open spec fn compatible(x: Seq<usize>, y: Seq<usize>) -> bool {
    &&& x.len() == y.len()
    &&& x.len() >= 1
    &&& x.drop_last() == y.drop_last()
    &&& x.last() != y.last()
}

/// The common prefix of two compatible itemsets followed by both last items in order.
pub open spec fn join_of(x: Seq<usize>, y: Seq<usize>) -> Seq<usize> {
    if x.last() < y.last() {
        x.push(y.last())
    } else {
        y.push(x.last())
    }
}

/// The join of two compatible members of `prev` is joined from `prev`, and
/// gives back its two parts.
pub proof fn lemma_join_of(prev: Set<Seq<usize>>, x: Seq<usize>, y: Seq<usize>)
    requires
        compatible(x, y),
    ensures
        ({
            let c = join_of(x, y);
            &&& c.len() == x.len() + 1
            &&& (prev.contains(x) && prev.contains(y) ==> joined(prev, c))
            &&& ((c.drop_last() == x && c.subrange(0, c.len() - 2).push(c.last()) == y) || (
            c.drop_last() == y && c.subrange(0, c.len() - 2).push(c.last()) == x))
        }),
{
    let c = join_of(x, y);
    if x.last() < y.last() {
        assert(c.drop_last() =~= x);
        assert(c.subrange(0, c.len() - 2) =~= y.drop_last());
        assert(c.subrange(0, c.len() - 2).push(c.last()) =~= y);
    } else {
        assert(c.drop_last() =~= y);
        assert(c.subrange(0, c.len() - 2) =~= x.drop_last());
        assert(c.subrange(0, c.len() - 2).push(c.last()) =~= x);
    }
}

/// A joined itemset is the join of its two parts.
pub proof fn lemma_joined_parts(prev: Set<Seq<usize>>, c: Seq<usize>)
    requires
        joined(prev, c),
    ensures
        ({
            let x = c.drop_last();
            let y = c.subrange(0, c.len() - 2).push(c.last());
            compatible(x, y) && join_of(x, y) == c && prev.contains(x) && prev.contains(y)
        }),
{
    let x = c.drop_last();
    let y = c.subrange(0, c.len() - 2).push(c.last());
    assert(x.drop_last() =~= y.drop_last());
    assert(x.last() == c[c.len() - 2]);
    assert(join_of(x, y) =~= c);
}

/// Every member of `prev` is an itemset of size `m`.
pub open spec fn level_of(prev: Set<Seq<usize>>, m: nat) -> bool {
    forall|s: Seq<usize>| #[trigger] prev.contains(s) ==> is_itemset(s) && s.len() == m
}

/// The frequent itemsets of one size form a level of that size.
pub proof fn lemma_frequent_level(data: Seq<Seq<usize>>, n: nat, k: nat, min: nat)
    ensures
        level_of(frequent(data, n, k, min), k),
{
}

/// A joined itemset from a level of size `m` is an itemset of size `m + 1`.
pub proof fn lemma_candidate_shape(prev: Set<Seq<usize>>, m: nat, c: Seq<usize>)
    requires
        level_of(prev, m),
        joined(prev, c),
    ensures
        is_itemset(c),
        c.len() == m + 1,
{
    let a = c.drop_last();
    let b = c.subrange(0, c.len() - 2).push(c.last());
    assert(prev.contains(a));
    assert(prev.contains(b));
    assert forall|x: int, y: int| 0 <= x < y < c.len() implies c[x] < c[y] by {
        if y < c.len() - 1 {
            assert(c[x] == a[x] && c[y] == a[y]);
        } else if x < c.len() - 2 {
            assert(c[x] == b[x] && c[y] == b[c.len() - 2]);
        }
    }
}

/// Once a size has no frequent itemsets, no larger size has any.
pub proof fn lemma_empty_beyond(data: Seq<Seq<usize>>, n: nat, k: nat, j: nat, min: nat)
    requires
        k >= 1,
        k <= j,
        frequent(data, n, k, min) == Set::<Seq<usize>>::empty(),
    ensures
        frequent(data, n, j, min) == Set::<Seq<usize>>::empty(),
    decreases j - k,
{
    if k < j {
        lemma_empty_stays_empty(data, n, k, min);
        lemma_empty_beyond(data, n, k + 1, j, min);
    }
}

pub proof fn lemma_remove_at(s: Seq<usize>, i: int)
    requires
        0 <= i < s.len(),
    ensures
        remove_at(s, i).len() == s.len() - 1,
        subset_of(remove_at(s, i), s),
        is_itemset(s) ==> is_itemset(remove_at(s, i)),
        forall|n: nat| items_below(s, n) ==> #[trigger] items_below(remove_at(s, i), n),
        forall|j: int| 0 <= j < i ==> remove_at(s, i)[j] == s[j],
        forall|j: int| i <= j < s.len() - 1 ==> remove_at(s, i)[j] == s[j + 1],
{
    let r = remove_at(s, i);
    assert forall|j: int| 0 <= j < r.len() implies s.contains(#[trigger] r[j]) by {
        if j < i {
            assert(r[j] == s[j]);
        } else {
            assert(r[j] == s[j + 1]);
        }
    }
    if is_itemset(s) {
        assert forall|a: int, b: int| 0 <= a < b < r.len() implies r[a] < r[b] by {
            let sa = if a < i { a } else { a + 1 };
            let sb = if b < i { b } else { b + 1 };
            assert(r[a] == s[sa]);
            assert(r[b] == s[sb]);
        }
    }
    assert forall|n: nat| items_below(s, n) implies #[trigger] items_below(remove_at(s, i), n) by {
        assert forall|j: int| 0 <= j < r.len() implies r[j] < n by {
            if j < i {
                assert(r[j] == s[j]);
            } else {
                assert(r[j] == s[j + 1]);
            }
        }
    }
}

/// An itemset of size `k` over `n` items needs `k <= n`.
pub proof fn lemma_size_bound(s: Seq<usize>, n: nat)
    requires
        is_itemset(s),
        items_below(s, n),
    ensures
        s.len() <= n,
{
    if s.len() > 0 {
        assert forall|i: int| 0 <= i < s.len() implies s[i] >= i by {
            lemma_itemset_lower(s, i);
        }
        assert(s[s.len() - 1] < n);
    }
}

proof fn lemma_itemset_lower(s: Seq<usize>, i: int)
    requires
        is_itemset(s),
        0 <= i < s.len(),
    ensures
        s[i] >= i,
    decreases i,
{
    if i > 0 {
        lemma_itemset_lower(s, i - 1);
    }
}

/// Downward closure: each subset of a frequent itemset that is one item
/// smaller is itself frequent.
pub proof fn lemma_downward_closure(
    data: Seq<Seq<usize>>,
    n: nat,
    k: nat,
    min: nat,
    c: Seq<usize>,
    i: int,
)
    requires
        k > 1,
        frequent(data, n, k, min).contains(c),
        0 <= i < k,
    ensures
        frequent(data, n, (k - 1) as nat, min).contains(remove_at(c, i)),
{
    lemma_remove_at(c, i);
    lemma_support_antimonotone(data, c, remove_at(c, i));
}

/// No frequent itemsets of one size means none of the next size either.
pub proof fn lemma_empty_stays_empty(data: Seq<Seq<usize>>, n: nat, k: nat, min: nat)
    requires
        k >= 1,
        frequent(data, n, k, min) == Set::<Seq<usize>>::empty(),
    ensures
        frequent(data, n, k + 1, min) == Set::<Seq<usize>>::empty(),
{
    assert forall|c: Seq<usize>| !#[trigger] frequent(data, n, k + 1, min).contains(c) by {
        if frequent(data, n, k + 1, min).contains(c) {
            lemma_downward_closure(data, n, k + 1, min, c, 0);
            assert(frequent(data, n, k, min).contains(remove_at(c, 0)));
        }
    }
    assert(frequent(data, n, k + 1, min) =~= Set::<Seq<usize>>::empty());
}

/// Sizes above the number of items have no frequent itemsets.
pub proof fn lemma_too_large_empty(data: Seq<Seq<usize>>, n: nat, k: nat, min: nat)
    requires
        k > n,
    ensures
        frequent(data, n, k, min) == Set::<Seq<usize>>::empty(),
{
    assert forall|c: Seq<usize>| !#[trigger] frequent(data, n, k, min).contains(c) by {
        if frequent(data, n, k, min).contains(c) {
            lemma_size_bound(c, n);
        }
    }
    assert(frequent(data, n, k, min) =~= Set::<Seq<usize>>::empty());
}

/// Joining and pruning the frequent itemsets of size `k - 1`, then keeping the
/// candidates whose support reaches `min`, gives the frequent itemsets of size `k`.
pub proof fn lemma_candidates_complete(data: Seq<Seq<usize>>, n: nat, k: nat, min: nat)
    requires
        k >= 2,
    ensures
        Set::new(
            |c: Seq<usize>|
                is_candidate(frequent(data, n, (k - 1) as nat, min), c) && support(data, c) >= min,
        ) == frequent(data, n, k, min),
{
    let prev = frequent(data, n, (k - 1) as nat, min);
    let lhs = Set::new(|c: Seq<usize>| is_candidate(prev, c) && support(data, c) >= min);
    assert forall|c: Seq<usize>| lhs.contains(c) <==> frequent(data, n, k, min).contains(c) by {
        if lhs.contains(c) {
            let a = c.drop_last();
            let b = c.subrange(0, c.len() - 2).push(c.last());
            assert(prev.contains(a));
            assert(prev.contains(b));
            assert(a.len() == k - 1);
            assert(c.len() == k);
            assert(is_itemset(c)) by {
                assert forall|x: int, y: int| 0 <= x < y < c.len() implies c[x] < c[y] by {
                    if y < c.len() - 1 {
                        assert(c[x] == a[x] && c[y] == a[y]);
                    } else if x < c.len() - 2 {
                        assert(c[x] == b[x] && c[y] == b[c.len() - 2]);
                    }
                }
            }
            assert(items_below(c, n)) by {
                assert forall|x: int| 0 <= x < c.len() implies c[x] < n by {
                    if x < c.len() - 1 {
                        assert(c[x] == a[x]);
                    } else {
                        assert(c[x] == b[c.len() - 2]);
                    }
                }
            }
        }
        if frequent(data, n, k, min).contains(c) {
            assert forall|i: int| 0 <= i < c.len() implies prev.contains(#[trigger] remove_at(c, i)) by {
                lemma_downward_closure(data, n, k, min, c, i);
            }
            assert(c.drop_last() =~= remove_at(c, c.len() - 1));
            assert(c.subrange(0, c.len() - 2).push(c.last()) =~= remove_at(c, c.len() - 2));
        }
    }
    assert(lhs =~= frequent(data, n, k, min));
}

/// Downward closure of a run's result: every subset one item smaller of an
/// itemset at level `j` is at level `j - 1`.
pub proof fn lemma_levels_downward_closed(
    data: Seq<Seq<usize>>,
    n: nat,
    min: nat,
    levels: Seq<Set<Seq<usize>>>,
    j: int,
    c: Seq<usize>,
    i: int,
)
    requires
        is_levels(data, n, min, levels),
        1 <= j < levels.len(),
        levels[j].contains(c),
        0 <= i <= j,
    ensures
        levels[j - 1].contains(remove_at(c, i)),
{
    assert(levels[j] == frequent(data, n, (j + 1) as nat, min));
    assert(levels[j - 1] == frequent(data, n, j as nat, min));
    lemma_downward_closure(data, n, (j + 1) as nat, min, c, i);
}

/// Termination of the pass loop: a run stops after at most `n` levels, and no
/// size past its last level has frequent itemsets.
pub proof fn lemma_levels_terminate(data: Seq<Seq<usize>>, n: nat, min: nat, levels: Seq<Set<Seq<usize>>>, k: nat)
    requires
        is_levels(data, n, min, levels),
        k > levels.len(),
    ensures
        levels.len() <= n,
        frequent(data, n, k, min) == Set::<Seq<usize>>::empty(),
{
    if levels.len() > n {
        assert(levels[n as int] == frequent(data, n, n + 1, min));
        lemma_too_large_empty(data, n, n + 1, min);
        assert(levels[n as int] != Set::<Seq<usize>>::empty());
    }
    lemma_empty_beyond(data, n, (levels.len() + 1) as nat, k, min);
}

/// The levels found so far by a run: level `j` holds the frequent itemsets
/// of size `j + 1`, and none is empty.
pub open spec fn levels_so_far(
    data: Seq<Seq<usize>>,
    n: nat,
    min: nat,
    levels: Seq<Set<Seq<usize>>>,
) -> bool {
    &&& forall|j: int| 0 <= j < levels.len() ==> #[trigger] levels[j] == frequent(data, n, (j + 1) as nat, min)
    &&& forall|j: int| 0 <= j < levels.len() ==> (#[trigger] levels[j]) != Set::<Seq<usize>>::empty()
}

/// A minimum support above the number of transactions leaves no level.
pub proof fn lemma_levels_empty_above_count(
    data: Seq<Seq<usize>>,
    n: nat,
    min: nat,
    levels: Seq<Set<Seq<usize>>>,
)
    requires
        is_levels(data, n, min, levels),
        min > data.len(),
    ensures
        levels.len() == 0,
{
    if levels.len() > 0 {
        assert(levels[0] == frequent(data, n, 1, min));
        assert(levels[0] != Set::<Seq<usize>>::empty());
        assert forall|c: Seq<usize>| !#[trigger] frequent(data, n, 1, min).contains(c) by {
            lemma_support_bound(data, c);
        }
        assert(frequent(data, n, 1, min) =~= Set::<Seq<usize>>::empty());
    }
}

/// Some transaction holds an itemset of positive support.
proof fn lemma_support_witness(data: Seq<Seq<usize>>, c: Seq<usize>) -> (i: int)
    requires
        support(data, c) > 0,
    ensures
        0 <= i < data.len(),
        subset_of(c, data[i]),
    decreases data.len(),
{
    if subset_of(c, data.last()) {
        (data.len() - 1) as int
    } else {
        lemma_support_witness(data.drop_last(), c)
    }
}

/// With a minimum support of at least one, a run has no more levels than
/// the longest transaction has items.
pub proof fn lemma_levels_within_transactions(
    data: Seq<Seq<usize>>,
    n: nat,
    min: nat,
    levels: Seq<Set<Seq<usize>>>,
    j: int,
)
    requires
        is_levels(data, n, min, levels),
        min >= 1,
        0 <= j < levels.len(),
    ensures
        exists|t: int| 0 <= t < data.len() && (#[trigger] data[t]).len() >= j + 1,
{
    assert(levels[j] == frequent(data, n, (j + 1) as nat, min));
    assert(levels[j] != Set::<Seq<usize>>::empty());
    if forall|c: Seq<usize>| !#[trigger] frequent(data, n, (j + 1) as nat, min).contains(c) {
        assert(frequent(data, n, (j + 1) as nat, min) =~= Set::<Seq<usize>>::empty());
    }
    let c = choose|c: Seq<usize>| #[trigger] frequent(data, n, (j + 1) as nat, min).contains(c);
    let t = lemma_support_witness(data, c);
    lemma_subset_len(c, data[t]);
}

/// Two runs whose results are levels of the same data and threshold agree:
/// Apriori, AprioriTID, AprioriHybrid and Count Distribution over any number
/// of shards all return the same levels.
pub proof fn lemma_levels_unique(
    data: Seq<Seq<usize>>,
    n: nat,
    min: nat,
    a: Seq<Set<Seq<usize>>>,
    b: Seq<Set<Seq<usize>>>,
)
    requires
        is_levels(data, n, min, a),
        is_levels(data, n, min, b),
    ensures
        a == b,
{
    if a.len() < b.len() {
        assert(b[a.len() as int] == frequent(data, n, (a.len() + 1) as nat, min));
        assert(b[a.len() as int] != Set::<Seq<usize>>::empty());
    } else if b.len() < a.len() {
        assert(a[b.len() as int] == frequent(data, n, (b.len() + 1) as nat, min));
        assert(a[b.len() as int] != Set::<Seq<usize>>::empty());
    }
    assert(a =~= b);
}

} // verus!
