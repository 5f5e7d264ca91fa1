use vstd::prelude::*;
use crate::itemset::{is_itemset, subset_of, views_of};

verus! {

/// `c` is an itemset of size `k` drawn from `t`.
pub open spec fn is_k_subset(c: Seq<usize>, t: Seq<usize>, k: nat) -> bool {
    c.len() == k && is_itemset(c) && subset_of(c, t)
}

/// `a` comes before `b` in lexicographic order.
pub open spec fn lex_lt(a: Seq<usize>, b: Seq<usize>) -> bool
    decreases a.len(),
{
    a.len() > 0 && b.len() > 0 && (a[0] < b[0] || (a[0] == b[0] && lex_lt(a.drop_first(), b.drop_first())))
}

/// The sequences of `s` come in strictly increasing lexicographic order.
pub open spec fn lex_sorted(s: Seq<Seq<usize>>) -> bool {
    forall|a: int, b: int| 0 <= a < b < s.len() ==> lex_lt(#[trigger] s[a], #[trigger] s[b])
}

proof fn lemma_lex_prepend(x: usize, a: Seq<usize>, b: Seq<usize>)
    requires
        lex_lt(a, b),
    ensures
        lex_lt(seq![x] + a, seq![x] + b),
{
    assert((seq![x] + a).drop_first() =~= a);
    assert((seq![x] + b).drop_first() =~= b);
}

proof fn lemma_lex_first(a: Seq<usize>, b: Seq<usize>)
    requires
        a.len() > 0,
        b.len() > 0,
        a[0] < b[0],
    ensures
        lex_lt(a, b),
{
}

fn prepend(x: usize, s: &Vec<usize>) -> (r: Vec<usize>)
    ensures
        r@ == seq![x] + s@,
{
    let mut r: Vec<usize> = Vec::new();
    r.push(x);
    let mut i: usize = 0;
    while i < s.len()
        invariant
            0 <= i <= s@.len(),
            r@ =~= seq![x] + s@.take(i as int),
        decreases s.len() - i,
    {
        r.push(s[i]);
        i = i + 1;
    }
    assert(s@.take(i as int) =~= s@);
    r
}

proof fn lemma_in_suffix(t: Seq<usize>, start: int, x: usize) -> (j: int)
    requires
        0 <= start <= t.len(),
        t.skip(start).contains(x),
    ensures
        start <= j < t.len(),
        t[j] == x,
{
    let k = choose|k: int| 0 <= k < t.skip(start).len() && t.skip(start)[k] == x;
    start + k
}

/// All itemsets of size `k` drawn from `t[start..]`, each once, in increasing
/// order of the positions they are drawn from.
fn combinations_from(t: &Vec<usize>, start: usize, k: usize) -> (r: Vec<Vec<usize>>)
    requires
        is_itemset(t@),
        start <= t@.len(),
    ensures
        views_of(r@).no_duplicates(),
        lex_sorted(views_of(r@)),
        forall|c: Seq<usize>| #[trigger] views_of(r@).contains(c) == is_k_subset(c, t@.skip(start as int), k as nat),
    decreases k,
{
    let mut out: Vec<Vec<usize>> = Vec::new();
    if k == 0 {
        out.push(Vec::new());
        proof {
            assert forall|c: Seq<usize>| #[trigger] views_of(out@).contains(c) == is_k_subset(c, t@.skip(start as int), k as nat) by {
                if c.len() == 0 {
                    assert(c =~= views_of(out@)[0]);
                }
            }
        }
        return out;
    }
    let ghost ts = t@.skip(start as int);
    let mut j: usize = start;
    while j < t.len()
        invariant
            is_itemset(t@),
            start <= j <= t@.len(),
            k >= 1,
            ts == t@.skip(start as int),
            views_of(out@).no_duplicates(),
            lex_sorted(views_of(out@)),
            forall|q: int| 0 <= q < out@.len() ==> {
                let c = #[trigger] views_of(out@)[q];
                &&& is_k_subset(c, ts, k as nat)
                &&& exists|jj: int| start <= jj < j && c[0] == t@[jj]
            },
            forall|c: Seq<usize>| is_k_subset(c, ts, k as nat) && (exists|jj: int| start <= jj < j && c[0] == t@[jj]) ==> #[trigger] views_of(out@).contains(c),
        decreases t.len() - j,
    {
        let sub = combinations_from(t, j + 1, k - 1);
        let x = t[j];
        let mut q: usize = 0;
        let ghost base = views_of(out@);
        proof {
            assert forall|p: int| 0 <= p < base.len() implies (#[trigger] base[p])[0] < x by {
                let c = views_of(out@)[p];
                assert(base[p] == c);
                assert(is_k_subset(c, ts, k as nat));
                let jj = choose|jj: int| start <= jj < j && c[0] == t@[jj];
                assert(t@[jj] < t@[j as int]);
            }
        }
        while q < sub.len()
            invariant
                is_itemset(t@),
                start <= j < t@.len(),
                x == t@[j as int],
                k >= 1,
                ts == t@.skip(start as int),
                views_of(sub@).no_duplicates(),
                forall|c: Seq<usize>| #[trigger] views_of(sub@).contains(c) == is_k_subset(c, t@.skip(j + 1), (k - 1) as nat),
                0 <= q <= sub@.len(),
                views_of(out@).no_duplicates(),
                lex_sorted(views_of(sub@)),
                lex_sorted(views_of(out@)),
                base.len() <= out@.len(),
                views_of(out@).take(base.len() as int) == base,
                forall|p: int| 0 <= p < base.len() ==> (#[trigger] base[p])[0] < x,
                forall|p: int| base.len() <= p < out@.len() ==> #[trigger] views_of(out@)[p] == seq![x] + views_of(sub@)[p - base.len()],
                out@.len() == base.len() + q,
                forall|p: int| 0 <= p < out@.len() ==> {
                    let c = #[trigger] views_of(out@)[p];
                    &&& is_k_subset(c, ts, k as nat)
                    &&& exists|jj: int| start <= jj <= j && c[0] == t@[jj]
                },
                forall|c: Seq<usize>| is_k_subset(c, ts, k as nat) && (exists|jj: int| start <= jj < j && c[0] == t@[jj]) ==> #[trigger] views_of(out@).contains(c),
                forall|p: int| 0 <= p < q ==> #[trigger] views_of(out@).contains(seq![x] + views_of(sub@)[p]),
            decreases sub.len() - q,
        {
            let c = prepend(x, &sub[q]);
            let ghost s = views_of(sub@)[q as int];
            let ghost old_out = views_of(out@);
            proof {
                assert(views_of(sub@).contains(s));
                assert(is_k_subset(s, t@.skip(j + 1), (k - 1) as nat));
                assert forall|a: int| 0 <= a < s.len() implies x < #[trigger] s[a] by {
                    let jj = lemma_in_suffix(t@, j + 1, s[a]);
                }
                assert(is_k_subset(c@, ts, k as nat)) by {
                    assert forall|a: int, b: int| 0 <= a < b < c@.len() implies c@[a] < c@[b] by {
                        if a > 0 {
                            assert(c@[a] == s[a - 1] && c@[b] == s[b - 1]);
                        } else {
                            assert(c@[b] == s[b - 1]);
                        }
                    }
                    assert forall|a: int| 0 <= a < c@.len() implies ts.contains(#[trigger] c@[a]) by {
                        if a == 0 {
                            assert(ts[j - start] == x);
                        } else {
                            assert(c@[a] == s[a - 1]);
                            let jj = lemma_in_suffix(t@, j + 1, s[a - 1]);
                            assert(ts[jj - start] == s[a - 1]);
                        }
                    }
                }
                assert(!old_out.contains(c@)) by {
                    if old_out.contains(c@) {
                        let p = choose|p: int| 0 <= p < old_out.len() && old_out[p] == c@;
                        if p < base.len() {
                            assert(base[p] == old_out[p]);
                            assert(base[p][0] < x);
                            assert(c@[0] == x);
                        } else {
                            let p2 = p - base.len();
                            assert(old_out[p] == seq![x] + views_of(sub@)[p2]);
                            assert(views_of(sub@)[p2] =~= c@.drop_first());
                            assert(s =~= c@.drop_first());
                            assert(p2 < q);
                        }
                    }
                }
            }
            out.push(c);
            proof {
                assert(views_of(out@) =~= old_out.push(c@));
                assert forall|a: int, b: int| 0 <= a < b < views_of(out@).len() implies lex_lt(#[trigger] views_of(out@)[a], #[trigger] views_of(out@)[b]) by {
                    if b == old_out.len() {
                        assert(views_of(out@)[b] == c@);
                        assert(views_of(out@)[a] == old_out[a]);
                        if a < base.len() {
                            assert(base[a] == old_out[a]);
                            assert(base[a][0] < x);
                            assert(c@[0] == x);
                            assert(old_out[a].len() > 0 && c@.len() > 0);
                            lemma_lex_first(old_out[a], c@);
                        } else {
                            let a2 = a - base.len();
                            assert(old_out[a] == seq![x] + views_of(sub@)[a2]);
                            assert(lex_lt(views_of(sub@)[a2], views_of(sub@)[q as int]));
                            lemma_lex_prepend(x, views_of(sub@)[a2], views_of(sub@)[q as int]);
                        }
                    } else {
                        assert(views_of(out@)[a] == old_out[a]);
                        assert(views_of(out@)[b] == old_out[b]);
                    }
                }
                assert(views_of(out@).take(base.len() as int) =~= base);
                assert(views_of(out@)[out@.len() - 1] == c@);
                assert(views_of(out@).contains(c@));
                assert(c@[0] == t@[j as int]);
                assert forall|cc: Seq<usize>| old_out.contains(cc) implies #[trigger] views_of(out@).contains(cc) by {
                    let p = choose|p: int| 0 <= p < old_out.len() && old_out[p] == cc;
                    assert(views_of(out@)[p] == old_out[p]);
                }
            }
            q = q + 1;
        }
        proof {
            assert forall|c: Seq<usize>| is_k_subset(c, ts, k as nat) && (exists|jj: int| start <= jj < j + 1 && c[0] == t@[jj]) implies #[trigger] views_of(out@).contains(c) by {
                let jj = choose|jj: int| start <= jj < j + 1 && c[0] == t@[jj];
                if jj == j {
                    let s = c.drop_first();
                    assert(c =~= seq![x] + s);
                    assert(is_k_subset(s, t@.skip(j + 1), (k - 1) as nat)) by {
                        assert forall|a: int, b: int| 0 <= a < b < s.len() implies s[a] < s[b] by {
                            assert(s[a] == c[a + 1] && s[b] == c[b + 1]);
                        }
                        assert forall|a: int| 0 <= a < s.len() implies t@.skip(j + 1).contains(#[trigger] s[a]) by {
                            assert(s[a] == c[a + 1]);
                            assert(c[0] < c[a + 1]);
                            let m = lemma_in_suffix(t@, start as int, c[a + 1]);
                            if m <= j {
                                if m < j {
                                    assert(t@[m] < t@[j as int]);
                                }
                            }
                            assert(t@.skip(j + 1)[m - j - 1] == s[a]);
                        }
                    }
                    assert(views_of(sub@).contains(s));
                    let p = choose|p: int| 0 <= p < sub@.len() && views_of(sub@)[p] == s;
                    assert(views_of(out@).contains(seq![x] + views_of(sub@)[p]));
                }
            }
            assert forall|p: int| 0 <= p < out@.len() implies {
                let c = #[trigger] views_of(out@)[p];
                &&& is_k_subset(c, ts, k as nat)
                &&& exists|jj: int| start <= jj < j + 1 && c[0] == t@[jj]
            } by {
                let c = views_of(out@)[p];
                let jj = choose|jj: int| start <= jj <= j && c[0] == t@[jj];
            }
        }
        j = j + 1;
    }
    proof {
        assert forall|c: Seq<usize>| #[trigger] views_of(out@).contains(c) == is_k_subset(c, ts, k as nat) by {
            if views_of(out@).contains(c) {
                let p = choose|p: int| 0 <= p < out@.len() && views_of(out@)[p] == c;
            }
            if is_k_subset(c, ts, k as nat) {
                assert(ts.contains(c[0]));
                let m = lemma_in_suffix(t@, start as int, c[0]);
            }
        }
    }
    out
}

/// All itemsets of size `k` drawn from the itemset `data`, each once: the
/// increasing combinations of its items.
pub fn nested_loops(data: &Vec<usize>, k: usize) -> (r: Vec<Vec<usize>>)
    requires
        is_itemset(data@),
    ensures
        views_of(r@).no_duplicates(),
        lex_sorted(views_of(r@)),
        forall|c: Seq<usize>| #[trigger] views_of(r@).contains(c) == is_k_subset(c, data@, k as nat),
{
    let r = combinations_from(data, 0, k);
    assert(data@.skip(0) =~= data@);
    r
}

} // verus!
