use vstd::prelude::*;
use crate::itemset::{views_of, copy_itemset};
use crate::frequent::{compatible, join_of, joined, lemma_join_of, lemma_joined_parts};

verus! {

/// Tests whether two itemsets of one nonzero size differ in their last item only.
fn is_compatible(a: &Vec<usize>, b: &Vec<usize>) -> (r: bool)
    requires
        a@.len() == b@.len(),
        a@.len() >= 1,
    ensures
        r == compatible(a@, b@),
{
    let m = a.len() - 1;
    if a[m] == b[m] {
        return false;
    }
    let mut i: usize = 0;
    while i < m
        invariant
            m == a@.len() - 1,
            a@.len() == b@.len(),
            0 <= i <= m,
            forall|k: int| 0 <= k < i ==> a@[k] == b@[k],
        decreases m - i,
    {
        if a[i] != b[i] {
            assert(a@.drop_last()[i as int] != b@.drop_last()[i as int]);
            return false;
        }
        i = i + 1;
    }
    assert(a@.drop_last() =~= b@.drop_last());
    true
}

/// The join of two compatible itemsets.
fn join_pair(a: &Vec<usize>, b: &Vec<usize>) -> (r: Vec<usize>)
    requires
        compatible(a@, b@),
    ensures
        r@ == join_of(a@, b@),
{
    let m = a.len() - 1;
    if a[m] < b[m] {
        let mut r = copy_itemset(a);
        r.push(b[m]);
        r
    } else {
        let mut r = copy_itemset(b);
        r.push(a[m]);
        r
    }
}

/// Joins together the itemsets of one size: for every two of them that share
/// all items but the last, the shared items followed by both last items in
/// increasing order. Each result comes once.
pub fn join(v: &Vec<Vec<usize>>) -> (r: Vec<Vec<usize>>)
    requires
        views_of(v@).no_duplicates(),
        forall|i: int| 0 <= i < v@.len() ==> (#[trigger] v@[i])@.len() == v@[0]@.len(),
        v@.len() > 0 ==> v@[0]@.len() >= 1,
    ensures
        views_of(r@).no_duplicates(),
        forall|c: Seq<usize>| #[trigger] views_of(r@).contains(c) == joined(views_of(v@).to_set(), c),
{
    let ghost s = views_of(v@);
    let ghost prev = s.to_set();
    let n = v.len();
    let mut out: Vec<Vec<usize>> = Vec::new();
    let ghost mut src: Seq<(int, int)> = Seq::empty();
    let mut i: usize = 0;
    while i < n
        invariant
            n == v@.len(),
            s == views_of(v@),
            prev == s.to_set(),
            s.no_duplicates(),
            forall|k: int| 0 <= k < v@.len() ==> (#[trigger] v@[k])@.len() == v@[0]@.len(),
            v@.len() > 0 ==> v@[0]@.len() >= 1,
            0 <= i <= n,
            src.len() == out@.len(),
            forall|q: int|
                0 <= q < src.len() ==> {
                    let (a, b) = #[trigger] src[q];
                    &&& 0 <= a < b < n
                    &&& a < i
                    &&& compatible(s[a], s[b])
                    &&& views_of(out@)[q] == join_of(s[a], s[b])
                },
            forall|q1: int, q2: int|
                0 <= q1 < q2 < src.len() ==> (#[trigger] src[q1]).0 < (#[trigger] src[q2]).0 || (
                src[q1].0 == src[q2].0 && src[q1].1 < src[q2].1),
            forall|a: int, b: int|
                0 <= a < i && a < b < n && compatible(s[a], s[b]) ==> views_of(out@).contains(
                    #[trigger] join_of(s[a], s[b]),
                ),
        decreases n - i,
    {
        let mut j: usize = i + 1;
        while j < n
            invariant
                n == v@.len(),
                s == views_of(v@),
                prev == s.to_set(),
                s.no_duplicates(),
                forall|k: int| 0 <= k < v@.len() ==> (#[trigger] v@[k])@.len() == v@[0]@.len(),
                v@.len() > 0 ==> v@[0]@.len() >= 1,
                0 <= i < n,
                i + 1 <= j <= n,
                src.len() == out@.len(),
                forall|q: int|
                    0 <= q < src.len() ==> {
                        let (a, b) = #[trigger] src[q];
                        &&& 0 <= a < b < n
                        &&& (a < i || (a == i && b < j))
                        &&& compatible(s[a], s[b])
                        &&& views_of(out@)[q] == join_of(s[a], s[b])
                    },
                forall|q1: int, q2: int|
                    0 <= q1 < q2 < src.len() ==> (#[trigger] src[q1]).0 < (#[trigger] src[q2]).0 || (
                    src[q1].0 == src[q2].0 && src[q1].1 < src[q2].1),
                forall|a: int, b: int|
                    0 <= a < b < n && (a < i || (a == i && b < j)) && compatible(s[a], s[b])
                        ==> views_of(out@).contains(#[trigger] join_of(s[a], s[b])),
            decreases n - j,
        {
            assert(s[i as int] == v@[i as int]@ && s[j as int] == v@[j as int]@);
            if is_compatible(&v[i], &v[j]) {
                let c = join_pair(&v[i], &v[j]);
                let ghost old_out = views_of(out@);
                out.push(c);
                proof {
                    assert(views_of(out@) =~= old_out.push(c@));
                    src = src.push((i as int, j as int));
                    assert forall|a: int, b: int|
                        0 <= a < b < n && (a < i || (a == i && b < j + 1)) && compatible(s[a], s[b])
                            implies views_of(out@).contains(#[trigger] join_of(s[a], s[b])) by {
                        if a == i && b == j {
                            assert(views_of(out@)[out@.len() - 1] == c@);
                        } else {
                            let q = choose|q: int| 0 <= q < old_out.len() && old_out[q] == join_of(s[a], s[b]);
                            assert(views_of(out@)[q] == old_out[q]);
                        }
                    }
                    assert forall|q: int| 0 <= q < src.len() implies {
                        let (a, b) = #[trigger] src[q];
                        &&& 0 <= a < b < n
                        &&& (a < i || (a == i && b < j + 1))
                        &&& compatible(s[a], s[b])
                        &&& views_of(out@)[q] == join_of(s[a], s[b])
                    } by {
                        if q < src.len() - 1 {
                            assert(views_of(out@)[q] == old_out[q]);
                        }
                    }
                }
            }
            j = j + 1;
        }
        i = i + 1;
    }
    proof {
        let o = views_of(out@);
        assert forall|q1: int, q2: int| 0 <= q1 < o.len() && 0 <= q2 < o.len() && q1 != q2 implies o[q1] != o[q2] by {
            let (a1, b1) = src[q1];
            let (a2, b2) = src[q2];
            lemma_join_of(prev, s[a1], s[b1]);
            lemma_join_of(prev, s[a2], s[b2]);
            if o[q1] == o[q2] {
                assert(s[a1] == s[a2] || s[a1] == s[b2]);
                assert(s[b1] == s[a2] || s[b1] == s[b2]);
                if q1 < q2 {
                    assert(src[q1].0 < src[q2].0 || (src[q1].0 == src[q2].0 && src[q1].1 < src[q2].1));
                } else {
                    assert(src[q2].0 < src[q1].0 || (src[q2].0 == src[q1].0 && src[q2].1 < src[q1].1));
                }
            }
        }
        assert forall|c: Seq<usize>| #[trigger] o.contains(c) == joined(prev, c) by {
            if o.contains(c) {
                let q = choose|q: int| 0 <= q < o.len() && o[q] == c;
                let (a, b) = src[q];
                assert(s.contains(s[a]) && s.contains(s[b]));
                lemma_join_of(prev, s[a], s[b]);
            }
            if joined(prev, c) {
                lemma_joined_parts(prev, c);
                let x = c.drop_last();
                let y = c.subrange(0, c.len() - 2).push(c.last());
                assert(s.contains(x));
                assert(s.contains(y));
                let a = choose|a: int| 0 <= a < s.len() && s[a] == x;
                let b = choose|b: int| 0 <= b < s.len() && s[b] == y;
                assert(a != b);
                if a < b {
                    assert(o.contains(join_of(s[a], s[b])));
                } else {
                    assert(compatible(s[b], s[a]));
                    assert(join_of(y, x) =~= join_of(x, y));
                    assert(o.contains(join_of(s[b], s[a])));
                }
            }
        }
    }
    out
}

} // verus!
