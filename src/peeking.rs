//! A cursor over the ascending elements of a `BTreeSet` that always holds the
//! next element, if any, read ahead.
//!
//! The cursor keeps no iterator of the tree: it steps by asking the set for
//! the least element after its head, which costs a descent of the tree per
//! step, and in return every step has a contract stated over the set's view.
use crate::order::{above, from, greatest, least, lemma_total_order, lemma_tree_finite, lt, total_order};
use crate::tree::{first, first_above, last};
use core::cmp::Ordering;
use std::collections::BTreeSet;
use vstd::prelude::*;

verus! {

broadcast use vstd::set_lib::group_set_properties;

/// The elements of `set` from `head` on, and before `end` where there is one.
#[derive(Debug)]
pub struct Peeking<'a, T> {
    set: &'a BTreeSet<T>,
    head: Option<&'a T>,
    end: Option<&'a T>,
    left: usize,
}

impl<'a, T> Peeking<'a, T> {
    /// A second cursor at the same place, walking the same set.
    pub fn duplicate(&self) -> (r: Self)
        ensures
            r == *self,
    {
        Peeking { set: self.set, head: self.head, end: self.end, left: self.left }
    }
}

impl<'a, T: Ord> Peeking<'a, T> {
    /// The elements that are still to come, the head among them.
    pub closed spec fn rest(&self) -> Set<T> {
        match self.head {
            None => Set::empty(),
            Some(h) => match self.end {
                None => from(self.set@, *h),
                Some(e) => from(self.set@, *h).filter(|x: T| lt(x, *e)),
            },
        }
    }

    /// The set that the cursor walks.
    pub closed spec fn source(&self) -> Set<T> {
        self.set@
    }

    /// Nothing has been taken from the far end yet.
    pub closed spec fn uncut(&self) -> bool {
        self.end is None
    }

    /// The cursor's invariant.
    pub closed spec fn wf(&self) -> bool {
        &&& total_order::<T>()
        &&& self.set@.finite()
        &&& self.left == self.rest().len()
        &&& self.head matches Some(h) ==> {
            &&& self.set@.contains(*h)
            &&& self.end matches Some(e) ==> lt(*h, *e)
        }
    }

    /// What the invariant gives a caller: the order is total and what is
    /// left is a finite part of the walked set.
    pub proof fn lemma_rest(&self)
        requires
            self.wf(),
        ensures
            total_order::<T>(),
            self.source().finite(),
            self.rest().subset_of(self.source()),
            self.rest().finite(),
    {
        self.lemma_head();
    }

    proof fn lemma_head(&self)
        requires
            self.wf(),
        ensures
            self.rest().subset_of(self.source()),
            self.rest().finite(),
            self.head matches Some(h) ==> least(self.rest(), *h),
            self.head is None <==> self.rest().is_empty(),
    {
        lemma_total_order::<T>();
        vstd::set_lib::lemma_len_subset(self.rest(), self.set@);
        if let Some(h) = self.head {
            assert(self.rest().contains(*h));
        }
    }

    /// A cursor at the start of `set`.
    pub fn new(set: &'a BTreeSet<T>) -> (r: Self)
        requires
            total_order::<T>(),
        ensures
            r.wf(),
            r.rest() == set@,
            r.source() == set@,
            r.uncut(),
    {
        proof {
            lemma_total_order::<T>();
            lemma_tree_finite(set);
        }
        let head = first(set);
        let r = Peeking { set, head, end: None, left: set.len() };
        assert(r.rest() =~= set@);
        r
    }

    /// The next element, left in place.
    pub fn peek(&self) -> (r: Option<&'a T>)
        requires
            self.wf(),
        ensures
            match r {
                None => self.rest().is_empty(),
                Some(x) => least(self.rest(), *x),
            },
    {
        proof {
            self.lemma_head();
        }
        self.head
    }

    /// Takes the next element.
    pub fn next(&mut self) -> (r: Option<&'a T>)
        requires
            old(self).wf(),
        ensures
            final(self).wf(),
            final(self).source() == old(self).source(),
            final(self).uncut() == old(self).uncut(),
            match r {
                None => old(self).rest().is_empty() && final(self).rest() == old(self).rest(),
                Some(x) => least(old(self).rest(), *x) && final(self).rest() == old(self).rest().remove(*x),
            },
    {
        proof {
            lemma_total_order::<T>();
            self.lemma_head();
        }
        match self.head {
            None => None,
            Some(h) => {
                let ghost before = self.rest();
                let following = first_above(self.set, h);
                let head = match (following, self.end) {
                    (Some(x), Some(e)) => match x.cmp(e) {
                        Ordering::Less => Some(x),
                        _ => None,
                    },
                    _ => following,
                };
                self.head = head;
                proof {
                    let ab = above(self.set@, *h);
                    assert forall|y: T| #[trigger] self.rest().contains(y) <==> before.remove(*h).contains(y) by {
                        if self.set@.contains(y) && lt(*h, y) {
                            assert(ab.contains(y));
                        }
                        if let Some(x) = following {
                            assert(ab.contains(*x));
                        }
                    }
                    assert(self.rest() =~= before.remove(*h));
                }
                self.left = self.left - 1;
                Some(h)
            },
        }
    }

    /// How many elements are still to come.
    pub fn len(&self) -> (r: usize)
        requires
            self.wf(),
        ensures
            r == self.rest().len(),
    {
        self.left
    }

    /// Takes the last element, from the far end; the cursor must not be cut yet.
    pub fn next_back(&mut self) -> (r: Option<&'a T>)
        requires
            old(self).wf(),
            old(self).uncut(),
        ensures
            final(self).wf(),
            final(self).source() == old(self).source(),
            match r {
                None => old(self).rest().is_empty() && final(self).rest() == old(self).rest(),
                Some(x) => greatest(old(self).rest(), *x) && final(self).rest() == old(self).rest().remove(*x),
            },
    {
        proof {
            lemma_total_order::<T>();
            self.lemma_head();
        }
        match self.head {
            None => None,
            Some(h) => {
                let ghost before = self.rest();
                let m = last(self.set).unwrap();
                assert(before.contains(*m));
                match h.cmp(m) {
                    Ordering::Less => {
                        self.end = Some(m);
                    },
                    _ => {
                        self.head = None;
                    },
                }
                proof {
                    assert forall|y: T| #[trigger] self.rest().contains(y) <==> before.remove(*m).contains(y) by {
                        if self.set@.contains(y) {
                            assert(!lt(*m, y));
                        }
                    }
                    assert(self.rest() =~= before.remove(*m));
                }
                self.left = self.left - 1;
                Some(m)
            },
        }
    }
}

} // verus!
