use vstd::prelude::*;

verus! {

/// A node of the hashed trie: one child slot per hash value, and the
/// positions of the entries whose itemset ends at this node.
#[derive(Debug)]
pub struct HashNode {
    pub children: Vec<Option<usize>>,
    pub positions: Vec<usize>,
}

/// The child slot that `item` hashes to among `n`.
pub open spec fn slot_of(item: usize, n: nat) -> int {
    (item as nat % n) as int
}

/// The node reached from node `s` by hashing the items of `v` level by level.
pub open spec fn reach(nodes: Seq<HashNode>, s: int, v: Seq<usize>, n: nat) -> Option<int>
    decreases v.len(),
{
    if v.len() == 0 {
        Some(s)
    } else if 0 <= s < nodes.len() && 0 <= slot_of(v[0], n) < nodes[s].children@.len() {
        match nodes[s].children@[slot_of(v[0], n)] {
            Some(c) => reach(nodes, c as int, v.drop_first(), n),
            None => None,
        }
    } else {
        None
    }
}

/// Every node has `n` slots, and children come after their parent.
pub open spec fn index_wf(nodes: Seq<HashNode>, n: nat) -> bool {
    &&& nodes.len() >= 1
    &&& n > 0
    &&& forall|s: int| 0 <= s < nodes.len() ==> (#[trigger] nodes[s]).children@.len() == n
    &&& forall|s: int, k: int|
        0 <= s < nodes.len() && 0 <= k < nodes[s].children@.len() && (#[trigger] nodes[s].children@[k]).is_some()
            ==> s < nodes[s].children@[k].unwrap() < nodes.len()
}

/// Every slot filled in `a` is filled alike in `b`.
pub open spec fn grows(a: Seq<HashNode>, b: Seq<HashNode>) -> bool {
    &&& a.len() <= b.len()
    &&& forall|s: int, k: int|
        0 <= s < a.len() && 0 <= k < a[s].children@.len() && (#[trigger] a[s].children@[k]).is_some()
            ==> k < b[s].children@.len() && b[s].children@[k] == a[s].children@[k]
}

pub proof fn lemma_reach_valid(nodes: Seq<HashNode>, s: int, v: Seq<usize>, n: nat)
    requires
        index_wf(nodes, n),
        0 <= s < nodes.len(),
    ensures
        reach(nodes, s, v, n) matches Some(c) ==> s <= c < nodes.len(),
    decreases v.len(),
{
    if v.len() > 0 {
        let k = slot_of(v[0], n);
        if 0 <= k < nodes[s].children@.len() {
            match nodes[s].children@[k] {
                Some(c) => lemma_reach_valid(nodes, c as int, v.drop_first(), n),
                None => {},
            }
        }
    }
}

pub proof fn lemma_reach_push(nodes: Seq<HashNode>, s: int, u: Seq<usize>, x: usize, n: nat)
    requires
        index_wf(nodes, n),
        0 <= s < nodes.len(),
    ensures
        reach(nodes, s, u.push(x), n) == match reach(nodes, s, u, n) {
            Some(c) => match nodes[c].children@[slot_of(x, n)] {
                Some(d) => Some(d as int),
                None => None,
            },
            None => None,
        },
    decreases u.len(),
{
    lemma_reach_valid(nodes, s, u, n);
    assert(nodes[s].children@.len() == n);
    if u.len() == 0 {
        assert(u.push(x).drop_first() =~= Seq::<usize>::empty());
        assert(u.push(x)[0] == x);
        assert(0 <= slot_of(x, n) < n);
        match nodes[s].children@[slot_of(x, n)] {
            Some(d) => {
                assert(reach(nodes, d as int, Seq::<usize>::empty(), n) == Some(d as int));
            },
            None => {},
        }
    } else {
        assert(u.push(x)[0] == u[0]);
        assert(u.push(x).drop_first() =~= u.drop_first().push(x));
        let k = slot_of(u[0], n);
        assert(0 <= k < n);
        match nodes[s].children@[k] {
            Some(c) => lemma_reach_push(nodes, c as int, u.drop_first(), x, n),
            None => {},
        }
    }
}

pub proof fn lemma_reach_grows(a: Seq<HashNode>, b: Seq<HashNode>, s: int, v: Seq<usize>, n: nat)
    requires
        grows(a, b),
        forall|i: int| 0 <= i < a.len() ==> (#[trigger] a[i]).children@.len() == n,
    ensures
        reach(a, s, v, n).is_some() ==> reach(b, s, v, n) == reach(a, s, v, n),
    decreases v.len(),
{
    if v.len() > 0 && 0 <= s < a.len() {
        let k = slot_of(v[0], n);
        if 0 <= k < a[s].children@.len() {
            match a[s].children@[k] {
                Some(c) => lemma_reach_grows(a, b, c as int, v.drop_first(), n),
                None => {},
            }
        }
    }
}

/// The hashed trie over the positions of a table's entries.
#[derive(Debug)]
pub struct HashIndex {
    pub nodes: Vec<HashNode>,
}

fn empty_slots(n: usize) -> (r: Vec<Option<usize>>)
    ensures
        r@.len() == n,
        forall|k: int| 0 <= k < n ==> (#[trigger] r@[k]).is_none(),
{
    let mut r: Vec<Option<usize>> = Vec::new();
    let mut i: usize = 0;
    while i < n
        invariant
            0 <= i <= n,
            r@.len() == i,
            forall|k: int| 0 <= k < i ==> (#[trigger] r@[k]).is_none(),
        decreases n - i,
    {
        r.push(None);
        i = i + 1;
    }
    r
}

fn copy_positions(v: &Vec<usize>) -> (r: Vec<usize>)
    ensures
        r@ == v@,
{
    let mut r: Vec<usize> = Vec::new();
    let mut i: usize = 0;
    while i < v.len()
        invariant
            0 <= i <= v@.len(),
            r@ =~= v@.take(i as int),
        decreases v.len() - i,
    {
        r.push(v[i]);
        i = i + 1;
    }
    assert(r@ =~= v@);
    r
}

fn copy_slots(v: &Vec<Option<usize>>) -> (r: Vec<Option<usize>>)
    ensures
        r@ == v@,
{
    let mut r: Vec<Option<usize>> = Vec::new();
    let mut i: usize = 0;
    while i < v.len()
        invariant
            0 <= i <= v@.len(),
            r@ =~= v@.take(i as int),
        decreases v.len() - i,
    {
        r.push(v[i]);
        i = i + 1;
    }
    assert(r@ =~= v@);
    r
}

impl HashIndex {
    /// An index with the root alone.
    pub fn new(n: usize) -> (r: Self)
        requires
            n > 0,
        ensures
            index_wf(r.nodes@, n as nat),
            r.nodes@.len() == 1,
            r.nodes@[0].positions@.len() == 0,
    {
        let mut nodes: Vec<HashNode> = Vec::new();
        nodes.push(HashNode { children: empty_slots(n), positions: Vec::new() });
        Self { nodes }
    }

    /// The node reached by `v` from the root, if any.
    pub fn walk(&self, v: &Vec<usize>, n: usize) -> (r: Option<usize>)
        requires
            index_wf(self.nodes@, n as nat),
        ensures
            r.is_some() == reach(self.nodes@, 0, v@, n as nat).is_some(),
            r.is_some() ==> r.unwrap() == reach(self.nodes@, 0, v@, n as nat).unwrap() && r.unwrap() < self.nodes@.len(),
    {
        let mut cur: usize = 0;
        let mut i: usize = 0;
        assert(v@.take(0) =~= Seq::<usize>::empty());
        while i < v.len()
            invariant
                index_wf(self.nodes@, n as nat),
                0 <= i <= v@.len(),
                cur < self.nodes@.len(),
                reach(self.nodes@, 0, v@.take(i as int), n as nat) == Some(cur as int),
            decreases v.len() - i,
        {
            proof {
                assert(v@.take(i as int + 1) =~= v@.take(i as int).push(v@[i as int]));
                lemma_reach_push(self.nodes@, 0, v@.take(i as int), v@[i as int], n as nat);
                assert(self.nodes@[cur as int].children@.len() == n);
            }
            let k = v[i] % n;
            match self.nodes[cur].children[k] {
                Some(c) => {
                    proof {
                        assert(self.nodes@[cur as int].children@[k as int].is_some());
                    }
                    cur = c;
                },
                None => {
                    proof {
                        lemma_none_extends(self.nodes@, v@.take(i as int + 1), v@, n as nat);
                    }
                    return None;
                },
            }
            i = i + 1;
        }
        assert(v@.take(i as int) =~= v@);
        Some(cur)
    }

    /// Adds position `p` at the node reached by `v`, creating the nodes
    /// that are missing on the way.
    pub fn insert(&mut self, v: &Vec<usize>, p: usize, n: usize)
        requires
            index_wf(old(self).nodes@, n as nat),
        ensures
            index_wf(final(self).nodes@, n as nat),
            grows(old(self).nodes@, final(self).nodes@),
            reach(final(self).nodes@, 0, v@, n as nat) matches Some(l) && {
                &&& 0 <= l < final(self).nodes@.len()
                &&& final(self).nodes@[l].positions@ == (if l < old(self).nodes@.len() {
                    old(self).nodes@[l].positions@
                } else {
                    Seq::<usize>::empty()
                }).push(p)
                &&& forall|s: int| 0 <= s < final(self).nodes@.len() && s != l ==> (#[trigger] final(self).nodes@[s]).positions@ == if s < old(self).nodes@.len() {
                    old(self).nodes@[s].positions@
                } else {
                    Seq::<usize>::empty()
                }
            },
    {
        let ghost old_nodes = self.nodes@;
        let mut cur: usize = 0;
        let mut i: usize = 0;
        assert(v@.take(0) =~= Seq::<usize>::empty());
        while i < v.len()
            invariant
                index_wf(self.nodes@, n as nat),
                grows(old_nodes, self.nodes@),
                old_nodes == old(self).nodes@,
                0 <= i <= v@.len(),
                cur < self.nodes@.len(),
                reach(self.nodes@, 0, v@.take(i as int), n as nat) == Some(cur as int),
                forall|s: int| 0 <= s < self.nodes@.len() ==> (#[trigger] self.nodes@[s]).positions@ == if s < old_nodes.len() {
                    old_nodes[s].positions@
                } else {
                    Seq::<usize>::empty()
                },
            decreases v.len() - i,
        {
            proof {
                assert(v@.take(i as int + 1) =~= v@.take(i as int).push(v@[i as int]));
                assert(self.nodes@[cur as int].children@.len() == n);
            }
            let k = v[i] % n;
            match self.nodes[cur].children[k] {
                Some(c) => {
                    proof {
                        lemma_reach_push(self.nodes@, 0, v@.take(i as int), v@[i as int], n as nat);
                        assert(self.nodes@[cur as int].children@[k as int].is_some());
                    }
                    cur = c;
                },
                None => {
                    let new = self.nodes.len();
                    let ghost prior = self.nodes@;
                    self.nodes.push(HashNode { children: empty_slots(n), positions: Vec::new() });
                    let ghost pushed = self.nodes@;
                    let mut slots = copy_slots(&self.nodes[cur].children);
                    slots.set(k, Some(new));
                    let positions = copy_positions(&self.nodes[cur].positions);
                    self.nodes.set(cur, HashNode { children: slots, positions });
                    proof {
                        let now = self.nodes@;
                        assert forall|s: int| 0 <= s < now.len() implies (#[trigger] now[s]).children@.len() == n by {
                            if s != cur {
                                assert(now[s] == pushed[s]);
                            }
                        }
                        assert forall|s: int, kk: int|
                            0 <= s < now.len() && 0 <= kk < now[s].children@.len() && (#[trigger] now[s].children@[kk]).is_some()
                                implies s < now[s].children@[kk].unwrap() < now.len() by {
                            if s == cur && kk == k {
                            } else if s == cur {
                                assert(now[s].children@[kk] == prior[s].children@[kk]);
                            } else if s < prior.len() {
                                assert(now[s] == prior[s]);
                            } else {
                                assert(now[s] == pushed[s]);
                            }
                        }
                        assert forall|s: int, kk: int|
                            0 <= s < prior.len() && 0 <= kk < prior[s].children@.len() && (#[trigger] prior[s].children@[kk]).is_some()
                                implies kk < now[s].children@.len() && now[s].children@[kk] == prior[s].children@[kk] by {
                            if s != cur {
                                assert(now[s] == prior[s]);
                            }
                        }
                        assert(grows(prior, now));
                        assert forall|s: int, kk: int|
                            0 <= s < old_nodes.len() && 0 <= kk < old_nodes[s].children@.len() && (#[trigger] old_nodes[s].children@[kk]).is_some()
                                implies kk < now[s].children@.len() && now[s].children@[kk] == old_nodes[s].children@[kk] by {
                            assert(prior[s].children@[kk] == old_nodes[s].children@[kk]);
                        }
                        lemma_reach_grows(prior, now, 0, v@.take(i as int), n as nat);
                        lemma_reach_push(now, 0, v@.take(i as int), v@[i as int], n as nat);
                        assert forall|s: int| 0 <= s < now.len() implies (#[trigger] now[s]).positions@ == if s < old_nodes.len() {
                            old_nodes[s].positions@
                        } else {
                            Seq::<usize>::empty()
                        } by {
                            if s == cur {
                                assert(prior[s].positions@ == now[s].positions@);
                            } else if s < prior.len() {
                                assert(now[s] == prior[s]);
                            } else {
                                assert(now[s] == pushed[s]);
                            }
                        }
                    }
                    cur = new;
                },
            }
            i = i + 1;
        }
        assert(v@.take(i as int) =~= v@);
        let slots = copy_slots(&self.nodes[cur].children);
        let mut positions = copy_positions(&self.nodes[cur].positions);
        positions.push(p);
        let ghost before = self.nodes@;
        self.nodes.set(cur, HashNode { children: slots, positions });
        proof {
            let now = self.nodes@;
            assert forall|s: int| 0 <= s < now.len() implies (#[trigger] now[s]).children@ == before[s].children@ by {
                if s != cur {
                    assert(now[s] == before[s]);
                }
            }
            assert forall|s: int| 0 <= s < now.len() implies (#[trigger] now[s]).children@.len() == n by {
                assert(now[s].children@ == before[s].children@);
            }
            assert forall|s: int, kk: int|
                0 <= s < now.len() && 0 <= kk < now[s].children@.len() && (#[trigger] now[s].children@[kk]).is_some()
                    implies s < now[s].children@[kk].unwrap() < now.len() by {
                assert(now[s].children@ == before[s].children@);
            }
            assert forall|s: int, kk: int|
                0 <= s < old_nodes.len() && 0 <= kk < old_nodes[s].children@.len() && (#[trigger] old_nodes[s].children@[kk]).is_some()
                    implies kk < now[s].children@.len() && now[s].children@[kk] == old_nodes[s].children@[kk] by {
                assert(now[s].children@ == before[s].children@);
            }
            assert(grows(before, now));
            lemma_reach_grows(before, now, 0, v@, n as nat);
        }
    }
}

/// A path whose prefix reaches nothing reaches nothing.
pub proof fn lemma_none_extends(nodes: Seq<HashNode>, u: Seq<usize>, w: Seq<usize>, n: nat)
    requires
        index_wf(nodes, n),
        u.len() <= w.len(),
        u == w.take(u.len() as int),
        reach(nodes, 0, u, n).is_none(),
    ensures
        reach(nodes, 0, w, n).is_none(),
{
    lemma_none_extends_from(nodes, 0, u, w, n);
}

proof fn lemma_none_extends_from(nodes: Seq<HashNode>, s: int, u: Seq<usize>, w: Seq<usize>, n: nat)
    requires
        index_wf(nodes, n),
        0 <= s < nodes.len(),
        u.len() <= w.len(),
        u == w.take(u.len() as int),
        reach(nodes, s, u, n).is_none(),
    ensures
        reach(nodes, s, w, n).is_none(),
    decreases u.len(),
{
    assert(u.len() > 0);
    assert(w[0] == u[0]);
    let k = slot_of(u[0], n);
    match nodes[s].children@[k] {
        Some(c) => {
            assert(u.drop_first() == w.drop_first().take(u.len() - 1));
            lemma_none_extends_from(nodes, c as int, u.drop_first(), w.drop_first(), n);
        },
        None => {},
    }
}

} // verus!
