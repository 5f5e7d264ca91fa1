use vstd::prelude::*;
use crate::itemset::{views_of, itemset_eq};

verus! {

/// A set of itemsets, held as a vector without repeats.
#[derive(Debug)]
pub struct Candidates {
    v: Vec<Vec<usize>>,
}

impl View for Candidates {
    type V = Set<Seq<usize>>;

    closed spec fn view(&self) -> Set<Seq<usize>> {
        views_of(self.v@).to_set()
    }
}

impl Candidates {
    /// The itemsets in the order they were inserted.
    pub closed spec fn items(&self) -> Seq<Seq<usize>> {
        views_of(self.v@)
    }

    /// No itemset is held twice.
    pub closed spec fn wf(&self) -> bool {
        views_of(self.v@).no_duplicates()
    }

    proof fn lemma_unique_len(s: Seq<Seq<usize>>)
        requires
            s.no_duplicates(),
        ensures
            s.to_set().len() == s.len(),
    {
        s.unique_seq_to_set();
    }

    /// An empty set.
    pub fn empty() -> (r: Self)
        ensures
            r.wf(),
            r@ == Set::<Seq<usize>>::empty(),
            r.items() == Seq::<Seq<usize>>::empty(),
    {
        let r = Candidates { v: Vec::new() };
        assert(views_of(r.v@) =~= Seq::<Seq<usize>>::empty());
        r
    }

    /// Builds the set of the itemsets in `v`; repeats are kept once.
    pub fn new(v: Vec<Vec<usize>>) -> (r: Self)
        ensures
            r.wf(),
            r@ == views_of(v@).to_set(),
    {
        let mut r = Self::empty();
        let mut i: usize = 0;
        let n = v.len();
        let mut v = v;
        let ghost orig = views_of(v@);
        let mut rest: Vec<Vec<usize>> = Vec::new();
        while i < n
            invariant
                0 <= i <= n,
                n == v.len(),
                views_of(v@) == orig,
                r@ == orig.take(i as int).to_set(),
                r.wf(),
            decreases n - i,
        {
            let x = crate::itemset::copy_itemset(&v[i]);
            proof {
                assert(orig.take(i as int + 1) =~= orig.take(i as int).push(orig[i as int]));
                orig.take(i as int).lemma_push_to_set_commute(orig[i as int]);
            }
            r.insert(x);
            i = i + 1;
        }
        assert(orig.take(n as int) =~= orig);
        r
    }

    /// The itemsets as a vector.
    pub fn to_vec(self) -> (r: Vec<Vec<usize>>)
        requires
            self.wf(),
        ensures
            views_of(r@) == self.items(),
            views_of(r@).to_set() == self@,
            views_of(r@).no_duplicates(),
    {
        self.v
    }

    /// The itemsets as a vector, borrowed.
    pub fn as_vec(&self) -> (r: &Vec<Vec<usize>>)
        requires
            self.wf(),
        ensures
            views_of(r@) == self.items(),
            views_of(r@).to_set() == self@,
            views_of(r@).no_duplicates(),
    {
        &self.v
    }

    /// Position of `x` among the items, if present.
    fn position(&self, x: &Vec<usize>) -> (r: Option<usize>)
        ensures
            r.is_some() ==> r.unwrap() < self.items().len() && self.items()[r.unwrap() as int]
                == x@,
            r.is_none() ==> !self@.contains(x@),
    {
        let mut i: usize = 0;
        while i < self.v.len()
            invariant
                0 <= i <= self.v.len(),
                forall|k: int| 0 <= k < i ==> self.items()[k] != x@,
            decreases self.v.len() - i,
        {
            if itemset_eq(&self.v[i], x) {
                return Some(i);
            }
            i = i + 1;
        }
        proof {
            if self@.contains(x@) {
                let k = choose|k: int| 0 <= k < self.items().len() && self.items()[k] == x@;
            }
        }
        None
    }

    /// Tests membership.
    pub fn contains(&self, x: &Vec<usize>) -> (r: bool)
        ensures
            r == self@.contains(x@),
    {
        let p = self.position(x);
        proof {
            if p.is_some() {
                assert(self.items().contains(x@));
            }
        }
        p.is_some()
    }

    /// Adds `x`; returns whether it was new.
    pub fn insert(&mut self, x: Vec<usize>) -> (r: bool)
        requires
            old(self).wf(),
        ensures
            final(self).wf(),
            final(self)@ == old(self)@.insert(x@),
            r == !old(self)@.contains(x@),
            r ==> final(self).items() == old(self).items().push(x@),
            !r ==> final(self).items() == old(self).items(),
    {
        if self.contains(&x) {
            assert(self@.insert(x@) =~= self@);
            return false;
        }
        let ghost old_items = self.items();
        self.v.push(x);
        proof {
            assert(self.items() =~= old_items.push(x@));
            old_items.lemma_push_to_set_commute(x@);
            assert forall|a: int, b: int| 0 <= a < b < self.items().len() implies self.items()[a]
                != self.items()[b] by {
                if b == old_items.len() {
                    assert(old_items.contains(old_items[a]));
                }
            }
        }
        true
    }

    /// Number of itemsets.
    pub fn len(&self) -> (r: usize)
        requires
            self.wf(),
        ensures
            r == self@.len(),
            r == self.items().len(),
    {
        proof {
            
            Self::lemma_unique_len(self.items());
        }
        self.v.len()
    }

    /// Tests whether the set is empty.
    pub fn is_empty(&self) -> (r: bool)
        requires
            self.wf(),
        ensures
            r == (self@.len() == 0),
            r == (self@ == Set::<Seq<usize>>::empty()),
    {
        proof {
            
            Self::lemma_unique_len(self.items());
            if self.items().len() > 0 {
                assert(self@.contains(self.items()[0]));
            } else {
                assert(self@ =~= Set::<Seq<usize>>::empty());
            }
        }
        self.v.len() == 0
    }

    /// The itemset at position `i` of the insertion order.
    pub fn get(&self, i: usize) -> (r: &Vec<usize>)
        requires
            i < self.items().len(),
        ensures
            r@ == self.items()[i as int],
    {
        &self.v[i]
    }
}

impl Default for Candidates {
    fn default() -> (r: Self)
        ensures
            r.wf(),
            r@ == Set::<Seq<usize>>::empty(),
    {
        Self::empty()
    }
}

} // verus!
