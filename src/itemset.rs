use vstd::prelude::*;

verus! {

/// An itemset: items in strictly increasing order.
pub open spec fn is_itemset(s: Seq<usize>) -> bool {
    forall|i: int, j: int| 0 <= i < j < s.len() ==> s[i] < s[j]
}

/// Every item of `c` occurs in `t`.
pub open spec fn subset_of(c: Seq<usize>, t: Seq<usize>) -> bool {
    forall|i: int| 0 <= i < c.len() ==> t.contains(#[trigger] c[i])
}

/// Number of transactions of `data` that hold every item of `c`.
pub open spec fn support(data: Seq<Seq<usize>>, c: Seq<usize>) -> nat
    decreases data.len(),
{
    if data.len() == 0 {
        0
    } else {
        support(data.drop_last(), c) + if subset_of(c, data.last()) {
            1nat
        } else {
            0nat
        }
    }
}

/// The itemsets held by a vector of vectors.
pub open spec fn views_of(v: Seq<Vec<usize>>) -> Seq<Seq<usize>> {
    v.map_values(|x: Vec<usize>| x@)
}

/// All items of `s` lie below `n`.
pub open spec fn items_below(s: Seq<usize>, n: nat) -> bool {
    forall|i: int| 0 <= i < s.len() ==> (#[trigger] s[i]) < n
}

/// `s` with the element at position `i` left out.
pub open spec fn remove_at(s: Seq<usize>, i: int) -> Seq<usize> {
    s.subrange(0, i) + s.subrange(i + 1, s.len() as int)
}

/// Support over a prefix of the data grows by the next transaction only.
pub proof fn lemma_support_step(data: Seq<Seq<usize>>, c: Seq<usize>, i: int)
    requires
        0 <= i < data.len(),
    ensures
        support(data.take(i + 1), c) == support(data.take(i), c) + if subset_of(c, data[i]) {
            1nat
        } else {
            0nat
        },
{
    assert(data.take(i + 1).drop_last() =~= data.take(i));
    assert(data.take(i + 1).last() == data[i]);
}

/// Support of a concatenation is the sum of the supports.
pub proof fn lemma_support_concat(a: Seq<Seq<usize>>, b: Seq<Seq<usize>>, c: Seq<usize>)
    ensures
        support(a + b, c) == support(a, c) + support(b, c),
    decreases b.len(),
{
    if b.len() == 0 {
        assert(a + b =~= a);
    } else {
        assert((a + b).drop_last() =~= a + b.drop_last());
        assert((a + b).last() == b.last());
        lemma_support_concat(a, b.drop_last(), c);
    }
}

/// A subset of `c` occurs in at least as many transactions as `c`.
pub proof fn lemma_support_antimonotone(data: Seq<Seq<usize>>, c: Seq<usize>, d: Seq<usize>)
    requires
        subset_of(d, c),
    ensures
        support(data, c) <= support(data, d),
    decreases data.len(),
{
    if data.len() > 0 {
        lemma_support_antimonotone(data.drop_last(), c, d);
        if subset_of(c, data.last()) {
            assert forall|i: int| 0 <= i < d.len() implies data.last().contains(#[trigger] d[i]) by {
                let j = choose|j: int| 0 <= j < c.len() && c[j] == d[i];
                assert(c.contains(d[i]));
            }
        }
    }
}

/// Support never exceeds the number of transactions.
pub proof fn lemma_support_bound(data: Seq<Seq<usize>>, c: Seq<usize>)
    ensures
        support(data, c) <= data.len(),
    decreases data.len(),
{
    if data.len() > 0 {
        lemma_support_bound(data.drop_last(), c);
    }
}

/// What a sequence holds after a push.
pub proof fn lemma_push_contains<A>(s: Seq<A>, x: A)
    ensures
        forall|c: A| #[trigger] s.push(x).contains(c) == (s.contains(c) || c == x),
{
    assert forall|c: A| #[trigger] s.push(x).contains(c) == (s.contains(c) || c == x) by {
        if s.push(x).contains(c) {
            let m = choose|m: int| 0 <= m < s.len() + 1 && s.push(x)[m] == c;
            if m < s.len() {
                assert(s[m] == c);
            }
        }
        if s.contains(c) {
            let m = choose|m: int| 0 <= m < s.len() && s[m] == c;
            assert(s.push(x)[m] == c);
        }
        if c == x {
            assert(s.push(x)[s.len() as int] == c);
        }
    }
}

/// An itemset inside `t` is no longer than `t`.
pub proof fn lemma_subset_len(c: Seq<usize>, t: Seq<usize>)
    requires
        is_itemset(c),
        subset_of(c, t),
    ensures
        c.len() <= t.len(),
{
    broadcast use vstd::seq_lib::seq_to_set_is_finite;

    assert(c.no_duplicates()) by {
        assert forall|i: int, j: int| 0 <= i < c.len() && 0 <= j < c.len() && i != j implies c[i] != c[j] by {
            if i < j {
                assert(c[i] < c[j]);
            } else {
                assert(c[j] < c[i]);
            }
        }
    }
    c.unique_seq_to_set();
    assert(c.to_set().subset_of(t.to_set()));
    vstd::set_lib::lemma_len_subset(c.to_set(), t.to_set());
    t.lemma_cardinality_of_set();
}

/// Tests whether every item of `c` is in `t`, by an ordered merge of the two.
pub fn is_subset(c: &Vec<usize>, t: &Vec<usize>) -> (r: bool)
    requires
        is_itemset(c@),
        is_itemset(t@),
    ensures
        r == subset_of(c@, t@),
{
    let mut i: usize = 0;
    let mut j: usize = 0;
    while i < c.len()
        invariant
            0 <= i <= c.len(),
            0 <= j <= t.len(),
            is_itemset(c@),
            is_itemset(t@),
            forall|k: int| 0 <= k < i ==> t@.contains(#[trigger] c@[k]),
            i < c.len() ==> forall|m: int| 0 <= m < j ==> t@[m] < c@[i as int],
        decreases (c.len() - i) + (t.len() - j),
    {
        if j >= t.len() {
            assert(!t@.contains(c@[i as int]));
            return false;
        }
        if t[j] < c[i] {
            j = j + 1;
        } else if t[j] == c[i] {
            assert(t@.contains(c@[i as int]));
            i = i + 1;
            j = j + 1;
        } else {
            assert(!t@.contains(c@[i as int])) by {
                assert forall|m: int| 0 <= m < t.len() implies t@[m] != c@[i as int] by {
                    if m >= j {
                        assert(t@[m] >= t@[j as int]);
                    }
                }
            }
            return false;
        }
    }
    true
}

/// Tests two itemsets for equality.
pub fn itemset_eq(a: &Vec<usize>, b: &Vec<usize>) -> (r: bool)
    ensures
        r == (a@ == b@),
{
    if a.len() != b.len() {
        return false;
    }
    let mut i: usize = 0;
    while i < a.len()
        invariant
            a.len() == b.len(),
            0 <= i <= a.len(),
            forall|k: int| 0 <= k < i ==> a@[k] == b@[k],
        decreases a.len() - i,
    {
        if a[i] != b[i] {
            return false;
        }
        i = i + 1;
    }
    assert(a@ =~= b@);
    true
}

/// A copy of an itemset.
pub fn copy_itemset(a: &Vec<usize>) -> (r: Vec<usize>)
    ensures
        r@ == a@,
{
    let mut r: Vec<usize> = Vec::new();
    let mut i: usize = 0;
    while i < a.len()
        invariant
            0 <= i <= a.len(),
            r@ =~= a@.take(i as int),
        decreases a.len() - i,
    {
        r.push(a[i]);
        i = i + 1;
    }
    assert(r@ =~= a@);
    r
}

/// Tests whether `s` is strictly increasing with all items below `n`.
pub fn is_valid_itemset(s: &Vec<usize>, n: usize) -> (r: bool)
    ensures
        r == (is_itemset(s@) && items_below(s@, n as nat)),
{
    let mut i: usize = 0;
    while i < s.len()
        invariant
            0 <= i <= s.len(),
            forall|a: int, b: int| 0 <= a < b < i ==> s@[a] < s@[b],
            forall|a: int| 0 <= a < i ==> s@[a] < n,
        decreases s.len() - i,
    {
        if s[i] >= n {
            return false;
        }
        if i > 0 && s[i - 1] >= s[i] {
            return false;
        }
        i = i + 1;
    }
    true
}

} // verus!
