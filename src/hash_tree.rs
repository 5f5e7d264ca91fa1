use vstd::prelude::*;
use crate::itemset::{itemset_eq, copy_itemset};
use crate::hash_index::{HashIndex, HashNode, reach, index_wf, grows, lemma_reach_grows, lemma_reach_valid};

verus! {

/// Bucket reached by an itemset: each successive item moves the running
/// bucket index on by that item's hash.
pub open spec fn path_hash(s: Seq<usize>, n: nat) -> nat
    decreases s.len(),
{
    if s.len() == 0 || n == 0 {
        0
    } else {
        (path_hash(s.drop_last(), n) + (s.last() as nat % n)) % n
    }
}

/// Bucket of the itemset `v` among `n` buckets.
pub fn bucket_index(v: &Vec<usize>, n: usize) -> (r: usize)
    requires
        0 < n <= usize::MAX / 2,
    ensures
        r == path_hash(v@, n as nat),
        r < n,
{
    let mut h: usize = 0;
    let mut i: usize = 0;
    while i < v.len()
        invariant
            0 < n <= usize::MAX / 2,
            0 <= i <= v.len(),
            h == path_hash(v@.take(i as int), n as nat),
            h < n,
        decreases v.len() - i,
    {
        proof {
            assert(v@.take(i as int + 1).drop_last() =~= v@.take(i as int));
        }
        h = (h + v[i] % n) % n;
        i = i + 1;
    }
    assert(v@.take(v.len() as int) =~= v@);
    h
}


/// An entry as seen in contracts: the itemset and its counter.
pub open spec fn entry_view(e: (Vec<usize>, u64)) -> (Seq<usize>, u64) {
    (e.0@, e.1)
}

/// The entries of a vector as seen in contracts.
pub open spec fn entries_of(v: Seq<(Vec<usize>, u64)>) -> Seq<(Seq<usize>, u64)> {
    v.map_values(|e: (Vec<usize>, u64)| entry_view(e))
}

/// Index of the first entry with key `k`, if there is one.
pub open spec fn has_key(e: Seq<(Seq<usize>, u64)>, k: Seq<usize>) -> bool {
    exists|p: int| 0 <= p < e.len() && (#[trigger] e[p]).0 == k
}

/// Keys are pairwise different.
pub open spec fn keys_unique(e: Seq<(Seq<usize>, u64)>) -> bool {
    forall|p: int, q: int| 0 <= p < q < e.len() ==> (#[trigger] e[p]).0 != (#[trigger] e[q]).0
}

/// The entry at position `p`, with key `key`, is listed at the node its key reaches.
spec fn placed(nodes: Seq<HashNode>, key: Seq<usize>, p: int, n: nat) -> bool {
    &&& reach(nodes, 0, key, n).is_some()
    &&& 0 <= reach(nodes, 0, key, n).unwrap() < nodes.len()
    &&& nodes[reach(nodes, 0, key, n).unwrap()].positions@.contains(p as usize)
}

/// Each position listed at a node belongs to an entry whose key reaches it.
spec fn listed_right(nodes: Seq<HashNode>, entries: Seq<(Vec<usize>, u64)>, n: nat) -> bool {
    forall|s: int, j: int|
        0 <= s < nodes.len() && 0 <= j < nodes[s].positions@.len() ==> {
            let q = #[trigger] nodes[s].positions@[j];
            &&& q < entries.len()
            &&& reach(nodes, 0, entries[q as int].0@, n) == Some(s)
        }
}

/// After `insert` of position `p` along `key`, what was placed stays placed
/// and what is listed stays right.
proof fn lemma_index_insert(
    a: Seq<HashNode>,
    b: Seq<HashNode>,
    entries: Seq<(Vec<usize>, u64)>,
    key: Seq<usize>,
    p: int,
    n: nat,
)
    requires
        index_wf(a, n),
        index_wf(b, n),
        grows(a, b),
        0 <= p < entries.len(),
        p <= usize::MAX,
        entries[p].0@ == key,
        forall|q: int| 0 <= q < p ==> placed(a, (#[trigger] entries[q]).0@, q, n),
        listed_right(a, entries.take(p), n),
        reach(b, 0, key, n) matches Some(l) && {
            &&& 0 <= l < b.len()
            &&& b[l].positions@ == (if l < a.len() { a[l].positions@ } else { Seq::<usize>::empty() }).push(p as usize)
            &&& forall|s: int| 0 <= s < b.len() && s != l ==> (#[trigger] b[s]).positions@ == if s < a.len() {
                a[s].positions@
            } else {
                Seq::<usize>::empty()
            }
        },
    ensures
        forall|q: int| 0 <= q <= p ==> placed(b, (#[trigger] entries[q]).0@, q, n),
        listed_right(b, entries.take(p + 1), n),
{
    let l = reach(b, 0, key, n).unwrap();
    assert forall|q: int| 0 <= q <= p implies placed(b, (#[trigger] entries[q]).0@, q, n) by {
        if q < p {
            let k = entries[q].0@;
            assert(placed(a, k, q, n));
            lemma_reach_grows(a, b, 0, k, n);
            let lq = reach(a, 0, k, n).unwrap();
            let j = choose|j: int| 0 <= j < a[lq].positions@.len() && a[lq].positions@[j] == q as usize;
            assert(b[lq].positions@[j] == q as usize);
        } else {
            assert(b[l].positions@.last() == p as usize);
        }
    }
    let e = entries.take(p + 1);
    assert forall|s: int, j: int| 0 <= s < b.len() && 0 <= j < b[s].positions@.len() implies {
        let q = #[trigger] b[s].positions@[j];
        &&& q < e.len()
        &&& reach(b, 0, e[q as int].0@, n) == Some(s)
    } by {
        let q = b[s].positions@[j];
        if s == l && j == b[s].positions@.len() - 1 {
            assert(b[l].positions@[j] == p as usize);
            assert(q as int == p);
            assert(e[p] == entries[p]);
        } else {
            assert(s < a.len());
            assert(a[s].positions@[j] == q);
            assert(q < p);
            assert(entries.take(p)[q as int] == e[q as int]);
            lemma_reach_grows(a, b, 0, e[q as int].0@, n);
        }
    }
}

/// A counting table of itemsets with `N` hash buckets.
///
/// The entries keep their insertion order. They are indexed by a trie of
/// nodes held in an arena: at each level the next item is hashed into one of
/// `N` child slots, and the node that the last item reaches lists the
/// positions of the entries whose itemset ends there. A lookup compares the
/// full itemset against the entries listed at one node only.
#[derive(Debug)]
pub struct AprioriHashTreeGeneric<const N: usize> {
    entries: Vec<(Vec<usize>, u64)>,
    index: HashIndex,
}

/// The counting table with the default branching factor.
pub type AprioriHashTree = AprioriHashTreeGeneric<50>;

impl<const N: usize> AprioriHashTreeGeneric<N> {
    /// The entries in insertion order: each itemset with its counter.
    pub closed spec fn entries(&self) -> Seq<(Seq<usize>, u64)> {
        entries_of(self.entries@)
    }

    /// The itemsets held, with their counters.
    pub open spec fn counts(&self) -> Map<Seq<usize>, u64> {
        Map::new(
            |k: Seq<usize>| has_key(self.entries(), k),
            |k: Seq<usize>|
                self.entries()[choose|p: int|
                    0 <= p < self.entries().len() && (#[trigger] self.entries()[p]).0 == k].1,
        )
    }

    /// Index invariant: keys are unique and nonempty, each entry is listed at
    /// the node its itemset reaches, and only there.
    pub closed spec fn wf(&self) -> bool {
        &&& 0 < N
        &&& index_wf(self.index.nodes@, N as nat)
        &&& keys_unique(self.entries())
        &&& forall|p: int|
            0 <= p < self.entries@.len() ==> (#[trigger] self.entries@[p]).0@.len() > 0
                && placed(self.index.nodes@, self.entries@[p].0@, p, N as nat)
        &&& listed_right(self.index.nodes@, self.entries@, N as nat)
    }

    /// What a well-formed table gives its callers: unique, non-empty keys.
    pub proof fn lemma_wf(&self)
        requires
            self.wf(),
        ensures
            keys_unique(self.entries()),
            forall|p: int| 0 <= p < self.entries().len() ==> (#[trigger] self.entries()[p]).0.len() > 0,
    {
        assert forall|p: int| 0 <= p < self.entries().len() implies (#[trigger] self.entries()[p]).0.len() > 0 by {
            assert(self.entries@[p].0@.len() > 0);
        }
    }

    /// An empty table.
    pub fn new() -> (r: Self)
        requires
            0 < N,
        ensures
            r.wf(),
            r.entries() == Seq::<(Seq<usize>, u64)>::empty(),
    {
        let r = Self { entries: Vec::new(), index: HashIndex::new(N) };
        assert(r.entries() =~= Seq::<(Seq<usize>, u64)>::empty());
        r
    }

    /// Position of the entry for `v`.
    fn find(&self, v: &Vec<usize>) -> (r: Option<usize>)
        requires
            self.wf(),
        ensures
            r.is_some() ==> r.unwrap() < self.entries().len() && self.entries()[r.unwrap() as int].0
                == v@,
            r.is_none() ==> !has_key(self.entries(), v@),
    {
        let n = self.entries.len();
        let l = match self.index.walk(v, N) {
            Some(l) => l,
            None => {
                proof {
                    if has_key(self.entries(), v@) {
                        let p = choose|p: int| 0 <= p < self.entries().len() && (#[trigger] self.entries()[p]).0 == v@;
                        assert(self.entries@[p].0@ == v@);
                        assert(placed(self.index.nodes@, self.entries@[p].0@, p, N as nat));
                    }
                }
                return None;
            },
        };
        let positions = &self.index.nodes[l].positions;
        let mut j: usize = 0;
        while j < positions.len()
            invariant
                self.wf(),
                n == self.entries@.len(),
                reach(self.index.nodes@, 0, v@, N as nat) == Some(l as int),
                l < self.index.nodes@.len(),
                positions@ == self.index.nodes@[l as int].positions@,
                0 <= j <= positions@.len(),
                forall|k: int| 0 <= k < j ==> self.entries@[positions@[k] as int].0@ != v@,
            decreases positions.len() - j,
        {
            let p = positions[j];
            assert(p < self.entries@.len());
            if itemset_eq(&self.entries[p].0, v) {
                return Some(p);
            }
            j = j + 1;
        }
        proof {
            if has_key(self.entries(), v@) {
                let p = choose|p: int| 0 <= p < self.entries().len() && (#[trigger] self.entries()[p]).0 == v@;
                assert(self.entries@[p].0@ == v@);
                assert(p < n);
                assert(placed(self.index.nodes@, v@, p, N as nat));
                assert(positions@.contains(p as usize));
                let k = choose|k: int| 0 <= k < positions@.len() && positions@[k] == p as usize;
                assert(self.entries@[positions@[k] as int].0@ != v@);
                assert(positions@[k] as int == p);
            }
        }
        None
    }

    /// Tests whether `v` is held.
    pub fn contains(&self, v: &Vec<usize>) -> (r: bool)
        requires
            self.wf(),
            v@.len() > 0,
        ensures
            r == has_key(self.entries(), v@),
            r == self.counts().contains_key(v@),
    {
        self.find(v).is_some()
    }

    /// Counter of `v`, if held.
    pub fn get_count(&self, v: &Vec<usize>) -> (r: Option<u64>)
        requires
            self.wf(),
            v@.len() > 0,
        ensures
            r.is_none() == !has_key(self.entries(), v@),
            r.is_some() ==> exists|p: int|
                0 <= p < self.entries().len() && (#[trigger] self.entries()[p]) == (v@, r.unwrap()),
    {
        match self.find(v) {
            Some(p) => {
                assert(self.entries()[p as int] == (v@, self.entries[p as int].1));
                Some(self.entries[p].1)
            },
            None => None,
        }
    }

    /// Adds `v` with counter 0; an itemset already held is left as it is.
    /// Returns whether `v` was added.
    pub fn add(&mut self, v: &Vec<usize>) -> (r: bool)
        requires
            old(self).wf(),
            v@.len() > 0,
        ensures
            final(self).wf(),
            r == !has_key(old(self).entries(), v@),
            r ==> final(self).entries() == old(self).entries().push((v@, 0u64)),
            !r ==> final(self).entries() == old(self).entries(),
    {
        self.add_with(v, 0)
    }

    /// Adds `v` with counter `count`; an itemset already held is left as it is.
    pub(crate) fn add_with(&mut self, v: &Vec<usize>, count: u64) -> (r: bool)
        requires
            old(self).wf(),
            v@.len() > 0,
        ensures
            final(self).wf(),
            r == !has_key(old(self).entries(), v@),
            r ==> final(self).entries() == old(self).entries().push((v@, count)),
            !r ==> final(self).entries() == old(self).entries(),
    {
        if self.find(v).is_some() {
            return false;
        }
        let p = self.entries.len();
        let ghost old_entries = self.entries@;
        let ghost old_nodes = self.index.nodes@;
        self.entries.push((copy_itemset(v), count));
        self.index.insert(v, p, N);
        proof {
            assert(self.entries() =~= entries_of(old_entries).push((v@, count)));
            assert(self.entries@.take(p as int) =~= old_entries);
            assert forall|q: int| 0 <= q < p implies placed(old_nodes, (#[trigger] self.entries@[q]).0@, q, N as nat) by {
                assert(self.entries@[q] == old_entries[q]);
            }
            lemma_index_insert(old_nodes, self.index.nodes@, self.entries@, v@, p as int, N as nat);
            assert(self.entries@.take(p as int + 1) =~= self.entries@);
            assert forall|q: int|
                0 <= q < self.entries@.len() implies (#[trigger] self.entries@[q]).0@.len() > 0
                    && placed(self.index.nodes@, self.entries@[q].0@, q, N as nat) by {
                if q < p {
                    assert(old_entries[q] == self.entries@[q]);
                }
            }
            assert forall|x: int, y: int| 0 <= x < y < self.entries().len() implies (#[trigger] self.entries()[x]).0 != (#[trigger] self.entries()[y]).0 by {
                if y == p {
                    assert(entries_of(old_entries)[x] == self.entries()[x]);
                }
            }
        }
        true
    }

    /// Adds one to the counter of `v`; returns whether `v` is held.
    pub fn increment(&mut self, v: &Vec<usize>) -> (r: bool)
        requires
            old(self).wf(),
            v@.len() > 0,
            forall|p: int|
                0 <= p < old(self).entries().len() && (#[trigger] old(self).entries()[p]).0 == v@
                    ==> old(self).entries()[p].1 < u64::MAX,
        ensures
            final(self).wf(),
            r == has_key(old(self).entries(), v@),
            final(self).entries().len() == old(self).entries().len(),
            forall|p: int|
                0 <= p < old(self).entries().len() ==> (#[trigger] final(self).entries()[p]) == (
                old(self).entries()[p].0,
                if old(self).entries()[p].0 == v@ {
                    (old(self).entries()[p].1 + 1) as u64
                } else {
                    old(self).entries()[p].1
                },
            ),
    {
        match self.find(v) {
            Some(p) => {
                self.increment_at(p);
                proof {
                    let e = old(self).entries();
                    assert forall|q: int| 0 <= q < e.len() && q != p implies e[q].0 != v@ by {
                        if q < p {
                            assert(e[q].0 != e[p as int].0);
                        } else {
                            assert(e[p as int].0 != e[q].0);
                        }
                    }
                }
                true
            },
            None => {
                proof {
                    assert forall|q: int| 0 <= q < old(self).entries().len() implies old(self).entries()[q].0 != v@ by {
                        if old(self).entries()[q].0 == v@ {
                            assert(has_key(old(self).entries(), v@));
                        }
                    }
                }
                false
            },
        }
    }

    /// Adds one to the counter of the entry at position `p`.
    pub(crate) fn increment_at(&mut self, p: usize)
        requires
            old(self).wf(),
            p < old(self).entries().len(),
            old(self).entries()[p as int].1 < u64::MAX,
        ensures
            final(self).wf(),
            final(self).entries() == old(self).entries().update(
                p as int,
                (old(self).entries()[p as int].0, (old(self).entries()[p as int].1 + 1) as u64),
            ),
    {
        self.add_at(p, 1)
    }

    /// Adds `amount` to the counter of the entry at position `p`.
    pub(crate) fn add_at(&mut self, p: usize, amount: u64)
        requires
            old(self).wf(),
            p < old(self).entries().len(),
            old(self).entries()[p as int].1 + amount <= u64::MAX,
        ensures
            final(self).wf(),
            final(self).entries() == old(self).entries().update(
                p as int,
                (old(self).entries()[p as int].0, (old(self).entries()[p as int].1 + amount) as u64),
            ),
    {
        let ghost old_entries = self.entries@;
        let k = copy_itemset(&self.entries[p].0);
        let c = self.entries[p].1;
        self.entries.set(p, (k, c + amount));
        proof {
            assert(self.entries() =~= entries_of(old_entries).update(
                p as int,
                (entries_of(old_entries)[p as int].0, (entries_of(old_entries)[p as int].1 + amount) as u64),
            ));
            assert forall|q: int| 0 <= q < self.entries@.len() implies (#[trigger] self.entries@[q]).0@ == old_entries[q].0@ by {
                if q != p {
                    assert(self.entries@[q] == old_entries[q]);
                }
            }
        }
    }

    /// The itemset at position `p`.
    pub(crate) fn key_at(&self, p: usize) -> (r: &Vec<usize>)
        requires
            self.wf(),
            p < self.entries().len(),
        ensures
            r@ == self.entries()[p as int].0,
    {
        &self.entries[p].0
    }

    /// Removes `v`, returning it with its counter.
    pub fn remove(&mut self, v: &Vec<usize>) -> (r: Option<(Vec<usize>, u64)>)
        requires
            old(self).wf(),
        ensures
            final(self).wf(),
            r.is_none() == !has_key(old(self).entries(), v@),
            r.is_none() ==> final(self).entries() == old(self).entries(),
            r.is_some() ==> exists|p: int|
                0 <= p < old(self).entries().len() && old(self).entries()[p] == (
                r.unwrap().0@,
                r.unwrap().1,
            ) && r.unwrap().0@ == v@ && final(self).entries() == old(self).entries().remove(p),
    {
        match self.find(v) {
            None => None,
            Some(p) => {
                let ghost old_e = self.entries();
                let ghost old_raw = self.entries@;
                let e = self.entries.remove(p);
                proof {
                    assert(entries_of(self.entries@) =~= old_e.remove(p as int));
                    assert(old_raw[p as int] == e);
                    assert forall|q: int| 0 <= q < self.entries@.len() implies (#[trigger] self.entries@[q]).0@.len() > 0 by {
                        if q < p {
                            assert(self.entries@[q] == old_raw[q]);
                        } else {
                            assert(self.entries@[q] == old_raw[q + 1]);
                        }
                    }
                    let ne = entries_of(self.entries@);
                    assert forall|x: int, y: int| 0 <= x < y < ne.len() implies (#[trigger] ne[x]).0 != (#[trigger] ne[y]).0 by {
                        let ox = if x < p { x } else { x + 1 };
                        let oy = if y < p { y } else { y + 1 };
                        assert(ne[x] == old_e[ox]);
                        assert(ne[y] == old_e[oy]);
                    }
                }
                self.index = Self::build_index(&self.entries);
                Some(e)
            },
        }
    }

    /// The index of `entries`, built anew.
    fn build_index(entries: &Vec<(Vec<usize>, u64)>) -> (r: HashIndex)
        requires
            0 < N,
        ensures
            index_wf(r.nodes@, N as nat),
            forall|q: int| 0 <= q < entries@.len() ==> placed(r.nodes@, (#[trigger] entries@[q]).0@, q, N as nat),
            listed_right(r.nodes@, entries@, N as nat),
    {
        let mut index = HashIndex::new(N);
        let mut p: usize = 0;
        proof {
            assert(entries@.take(0) =~= Seq::<(Vec<usize>, u64)>::empty());
            assert forall|s: int, j: int| 0 <= s < index.nodes@.len() && 0 <= j < index.nodes@[s].positions@.len() implies {
                let q = #[trigger] index.nodes@[s].positions@[j];
                &&& q < entries@.take(0).len()
                &&& reach(index.nodes@, 0, entries@.take(0)[q as int].0@, N as nat) == Some(s)
            } by {
            }
        }
        while p < entries.len()
            invariant
                0 < N,
                0 <= p <= entries@.len(),
                index_wf(index.nodes@, N as nat),
                forall|q: int| 0 <= q < p ==> placed(index.nodes@, (#[trigger] entries@[q]).0@, q, N as nat),
                listed_right(index.nodes@, entries@.take(p as int), N as nat),
            decreases entries.len() - p,
        {
            let ghost before = index.nodes@;
            index.insert(&entries[p].0, p, N);
            proof {
                lemma_index_insert(before, index.nodes@, entries@, entries@[p as int].0@, p as int, N as nat);
            }
            p = p + 1;
        }
        assert(entries@.take(p as int) =~= entries@);
        index
    }

    /// The entries with their counters, in insertion order.
    pub fn iter(&self) -> (r: HashTreeIterator)
        requires
            self.wf(),
        ensures
            r.wf(),
            r.rest() == self.entries(),
    {
        HashTreeIterator::new(self.to_vec())
    }

    /// A copy of the entries with their counters, in insertion order.
    pub fn to_vec(&self) -> (r: Vec<(Vec<usize>, u64)>)
        requires
            self.wf(),
        ensures
            entries_of(r@) == self.entries(),
    {
        let mut out: Vec<(Vec<usize>, u64)> = Vec::new();
        let mut i: usize = 0;
        while i < self.entries.len()
            invariant
                0 <= i <= self.entries@.len(),
                entries_of(out@) =~= self.entries().take(i as int),
            decreases self.entries.len() - i,
        {
            let e = (copy_itemset(&self.entries[i].0), self.entries[i].1);
            let ghost prev = out@;
            out.push(e);
            proof {
                assert(entry_view(e) == self.entries()[i as int]);
                assert(entries_of(out@) =~= entries_of(prev).push(entry_view(e)));
                assert(self.entries().take(i as int + 1) =~= self.entries().take(i as int).push(self.entries()[i as int]));
            }
            i = i + 1;
        }
        assert(self.entries().take(i as int) =~= self.entries());
        out
    }

    /// Number of itemsets held.
    pub fn len(&self) -> (r: usize)
        ensures
            r == self.entries().len(),
    {
        self.entries.len()
    }

    /// Tests whether no itemset is held.
    pub fn is_empty(&self) -> (r: bool)
        ensures
            r == (self.entries().len() == 0),
    {
        self.entries.len() == 0
    }
}

/// Hands out the entries of a counting table one at a time.
#[derive(Debug)]
pub struct HashTreeIterator {
    items: Vec<(Vec<usize>, u64)>,
    pos: usize,
}

impl HashTreeIterator {
    /// The entries not yet handed out.
    pub closed spec fn rest(&self) -> Seq<(Seq<usize>, u64)> {
        entries_of(self.items@).skip(self.pos as int)
    }

    /// The position lies within the entries.
    pub closed spec fn wf(&self) -> bool {
        self.pos <= self.items@.len()
    }

    fn new(items: Vec<(Vec<usize>, u64)>) -> (r: Self)
        ensures
            r.wf(),
            r.rest() == entries_of(items@),
    {
        let r = Self { items, pos: 0 };
        assert(entries_of(r.items@).skip(0) =~= entries_of(items@));
        r
    }

    /// The next entry, or `None` once all have been handed out.
    pub fn next(&mut self) -> (r: Option<(Vec<usize>, u64)>)
        requires
            old(self).wf(),
        ensures
            final(self).wf(),
            old(self).rest().len() == 0 ==> r.is_none() && final(self).rest() == old(self).rest(),
            old(self).rest().len() > 0 ==> r.is_some() && entry_view(r.unwrap()) == old(self).rest()[0]
                && final(self).rest() == old(self).rest().drop_first(),
    {
        if self.pos >= self.items.len() {
            return None;
        }
        let e = (copy_itemset(&self.items[self.pos].0), self.items[self.pos].1);
        let ghost old_rest = self.rest();
        self.pos = self.pos + 1;
        assert(self.rest() =~= old_rest.drop_first());
        Some(e)
    }
}

} // verus!
