//! The difference of two sets, and the subset test built on the same
//! strategies.
use crate::cursor::AscendingCursor;
use crate::order::{bounds_settle, greatest, lemma_bounds_settle, least, lemma_total_order, lemma_tree_finite, lt, total_order};
use crate::peeking::Peeking;
use crate::tree::{first, last};
use crate::ITER_PERFORMANCE_TIPPING_SIZE_DIFF;
use core::cmp::Ordering;
use std::collections::BTreeSet;
use vstd::prelude::*;

verus! {

broadcast use vstd::set_lib::group_set_properties;

/// A lazy cursor over the elements of one set that are not in another, in
/// ascending order.
#[derive(Debug)]
pub struct Difference<'a, T> {
    inner: DifferenceInner<'a, T>,
}

#[derive(Debug)]
enum DifferenceInner<'a, T> {
    /// Walk all of the first set and some of the other, spotting matches.
    Stitch { self_iter: Peeking<'a, T>, other_iter: Peeking<'a, T> },
    /// Walk a small set and look each element up in the large one.
    Search { self_iter: Peeking<'a, T>, other_set: &'a BTreeSet<T> },
    /// Produce the first set's elements as they come.
    Iterate(Peeking<'a, T>),
}

impl<'a, T: Ord> View for Difference<'a, T> {
    type V = Set<T>;

    /// The elements still to be produced.
    closed spec fn view(&self) -> Set<T> {
        match self.inner {
            DifferenceInner::Stitch { self_iter, other_iter } => self_iter.rest().difference(other_iter.rest()),
            DifferenceInner::Search { self_iter, other_set } => self_iter.rest().difference(other_set@),
            DifferenceInner::Iterate(iter) => iter.rest(),
        }
    }
}

impl<'a, T: Ord> Difference<'a, T> {
    /// The answer was known in advance from the sets' bounds: the first set
    /// as it stands, or less one of its ends.
    pub closed spec fn settled(&self) -> bool {
        self.inner is Iterate
    }

    /// The cursor's invariant.
    pub closed spec fn wf(&self) -> bool {
        &&& total_order::<T>()
        &&& match self.inner {
            DifferenceInner::Stitch { self_iter, other_iter } => self_iter.wf() && other_iter.wf(),
            DifferenceInner::Search { self_iter, other_set } => self_iter.wf(),
            DifferenceInner::Iterate(iter) => iter.wf(),
        }
    }

    /// Produces the least element still to come, or `None` once there is
    /// none, and keeps answering `None` from then on.
    pub fn next(&mut self) -> (r: Option<&'a T>)
        requires
            old(self).wf(),
        ensures
            final(self).wf(),
            old(self)@.is_empty() ==> r is None && final(self)@.is_empty(),
            match r {
                None => old(self)@.is_empty() && final(self)@ == old(self)@,
                Some(x) => least(old(self)@, *x) && final(self)@ == old(self)@.remove(*x),
            },
    {
        match &mut self.inner {
            DifferenceInner::Stitch { self_iter, other_iter } => stitch_next(self_iter, other_iter),
            DifferenceInner::Search { self_iter, other_set } => search_next(self_iter, other_set),
            DifferenceInner::Iterate(iter) => iter.next(),
        }
    }

    /// Bounds on how many elements are still to come.
    pub fn size_hint(&self) -> (r: (usize, Option<usize>))
        requires
            self.wf(),
        ensures
            r.0 <= self@.len(),
            r.1 matches Some(hi) && self@.len() <= hi,
            self.settled() ==> r.0 == self@.len() && r.1 == Some(r.0),
    {
        let (self_len, other_len) = match &self.inner {
            DifferenceInner::Stitch { self_iter, other_iter } => {
                proof {
                    self_iter.lemma_rest();
                    other_iter.lemma_rest();
                    lemma_difference_len(self_iter.rest(), other_iter.rest());
                }
                (self_iter.len(), other_iter.len())
            },
            DifferenceInner::Search { self_iter, other_set } => {
                proof {
                    self_iter.lemma_rest();
                    lemma_tree_finite(other_set);
                    lemma_difference_len(self_iter.rest(), other_set@);
                }
                (self_iter.len(), other_set.len())
            },
            DifferenceInner::Iterate(iter) => {
                proof {
                    iter.lemma_rest();
                }
                (iter.len(), 0)
            },
        };
        (self_len.saturating_sub(other_len), Some(self_len))
    }
}

impl<'a, T> Clone for Difference<'a, T> {
    /// A second cursor with the same elements still to come.
    fn clone(&self) -> (r: Self)
        ensures
            r == *self,
    {
        Difference {
            inner: match &self.inner {
                DifferenceInner::Stitch { self_iter, other_iter } => DifferenceInner::Stitch {
                    self_iter: self_iter.duplicate(),
                    other_iter: other_iter.duplicate(),
                },
                DifferenceInner::Search { self_iter, other_set } => DifferenceInner::Search {
                    self_iter: self_iter.duplicate(),
                    other_set,
                },
                DifferenceInner::Iterate(iter) => DifferenceInner::Iterate(iter.duplicate()),
            },
        }
    }
}

/// Takes elements of `self_iter` until one is not in what `other_iter` has
/// left, and returns it.
fn stitch_next<'a, T: Ord>(self_iter: &mut Peeking<'a, T>, other_iter: &mut Peeking<'a, T>) -> (r: Option<&'a T>)
    requires
        old(self_iter).wf(),
        old(other_iter).wf(),
    ensures
        final(self_iter).wf(),
        final(other_iter).wf(),
        match r {
            None => old(self_iter).rest().difference(old(other_iter).rest()).is_empty()
                && final(self_iter).rest().difference(final(other_iter).rest())
                    == old(self_iter).rest().difference(old(other_iter).rest()),
            Some(x) => least(old(self_iter).rest().difference(old(other_iter).rest()), *x)
                && final(self_iter).rest().difference(final(other_iter).rest())
                    == old(self_iter).rest().difference(old(other_iter).rest()).remove(*x),
        },
{
    let ghost goal = self_iter.rest().difference(other_iter.rest());
        loop
            invariant
                self_iter.wf(),
                other_iter.wf(),
                self_iter.rest().difference(other_iter.rest()) == goal,
                goal == old(self_iter).rest().difference(old(other_iter).rest()),
            decreases self_iter.rest().len() + other_iter.rest().len(),
        {
            proof {
                self_iter.lemma_rest();
                other_iter.lemma_rest();
                lemma_total_order::<T>();
            }
            let ghost (rs, ro) = (self_iter.rest(), other_iter.rest());
            let s = match self_iter.peek() {
                None => {
                    assert(goal =~= Set::empty());
                    return None;
                },
                Some(s) => s,
            };
            let ord = match other_iter.peek() {
                None => Ordering::Less,
                Some(o) => s.cmp(o),
            };
            match ord {
                Ordering::Less => {
                    self_iter.next();
                    proof {
                        assert(!ro.contains(*s));
                        assert forall|y: T| #[trigger] goal.contains(y) implies !lt(y, *s) by {
                            assert(rs.contains(y));
                        }
                        assert(self_iter.rest().difference(other_iter.rest()) =~= goal.remove(*s));
                    }
                    return Some(s);
                },
                Ordering::Equal => {
                    self_iter.next();
                    other_iter.next();
                    assert(self_iter.rest().difference(other_iter.rest()) =~= goal);
                },
                Ordering::Greater => {
                    let o = other_iter.next();
                    assert(!rs.contains(*o.unwrap()));
                    assert(self_iter.rest().difference(other_iter.rest()) =~= goal);
                },
            }
        }
}

/// Takes elements of `self_iter` until one is not in `other_set`, and
/// returns it.
fn search_next<'a, T: Ord>(self_iter: &mut Peeking<'a, T>, other_set: &BTreeSet<T>) -> (r: Option<&'a T>)
    requires
        old(self_iter).wf(),
    ensures
        final(self_iter).wf(),
        match r {
            None => old(self_iter).rest().difference(other_set@).is_empty()
                && final(self_iter).rest().difference(other_set@) == old(self_iter).rest().difference(other_set@),
            Some(x) => least(old(self_iter).rest().difference(other_set@), *x)
                && final(self_iter).rest().difference(other_set@)
                    == old(self_iter).rest().difference(other_set@).remove(*x),
        },
{
    let ghost goal = self_iter.rest().difference(other_set@);
        loop
            invariant
                self_iter.wf(),
                self_iter.rest().difference(other_set@) == goal,
                goal == old(self_iter).rest().difference(other_set@),
            decreases self_iter.rest().len(),
        {
            proof {
                self_iter.lemma_rest();
                lemma_total_order::<T>();
            }
            let ghost rs = self_iter.rest();
            match self_iter.next() {
                None => {
                    return None;
                },
                Some(x) => {
                    if !other_set.contains(x) {
                        proof {
                            assert forall|y: T| #[trigger] goal.contains(y) implies !lt(y, *x) by {
                                assert(rs.contains(y));
                            }
                            assert(self_iter.rest().difference(other_set@) =~= goal.remove(*x));
                        }
                        return Some(x);
                    }
                    assert(self_iter.rest().difference(other_set@) =~= goal);
                },
            }
        }
}

/// `s - o` holds at most `s`'s elements and at least as many as `s` has more
/// than `o`.
proof fn lemma_difference_len<T>(s: Set<T>, o: Set<T>)
    requires
        s.finite(),
        o.finite(),
    ensures
        s.difference(o).len() <= s.len(),
        s.len() - o.len() <= s.difference(o).len(),
{
    vstd::set_lib::lemma_len_intersect(o, s);
    assert(o.intersect(s) =~= s.intersect(o));
}

/// The cursor over `p`'s elements as they come.
fn iterate<'a, T: Ord>(p: Peeking<'a, T>) -> (r: Difference<'a, T>)
    requires
        p.wf(),
    ensures
        r.wf(),
        r.settled(),
        r@ == p.rest(),
{
    proof {
        p.lemma_rest();
    }
    Difference { inner: DifferenceInner::Iterate(p) }
}

/// The elements of `selve` that are not in `other`, by the strategy that the
/// sets' sizes and bounds call for: `selve` as it stands, or without its
/// first or last element, where the bounds settle it; a search where `selve`
/// is much smaller than `other`; a joint scan otherwise.
pub fn difference_future<'a, T: Ord>(selve: &'a BTreeSet<T>, other: &'a BTreeSet<T>) -> (r: Difference<'a, T>)
    requires
        total_order::<T>(),
    ensures
        r.wf(),
        r@ == selve@.difference(other@),
        r.settled() == bounds_settle(selve@, other@),
{
    proof {
        lemma_total_order::<T>();
        lemma_tree_finite(selve);
        lemma_tree_finite(other);
    }
    let (self_min, self_max) = match (first(selve), last(selve)) {
        (Some(lo), Some(hi)) => (lo, hi),
        _ => {
            assert(selve@.difference(other@) =~= selve@);
            return iterate(Peeking::new(selve));
        },
    };
    let (other_min, other_max) = match (first(other), last(other)) {
        (Some(lo), Some(hi)) => (lo, hi),
        _ => {
            assert(selve@.difference(other@) =~= selve@);
            return iterate(Peeking::new(selve));
        },
    };
    proof {
        lemma_bounds_settle(selve@, other@, *self_min, *self_max, *other_min, *other_max);
    }
    match (self_min.cmp(other_max), self_max.cmp(other_min)) {
        (Ordering::Greater, _) | (_, Ordering::Less) => {
            assert forall|y: T| #[trigger] selve@.contains(y) implies !other@.contains(y) by {
                assert(!lt(y, *self_min) && !lt(*self_max, y));
                if other@.contains(y) {
                    assert(!lt(*other_max, y) && !lt(y, *other_min));
                }
            }
            assert(selve@.difference(other@) =~= selve@);
            iterate(Peeking::new(selve))
        },
        (Ordering::Equal, _) => {
            let mut self_iter = Peeking::new(selve);
            self_iter.next();
            assert forall|y: T| #[trigger] selve@.contains(y) && y != *self_min implies !other@.contains(y) by {
                assert(!lt(y, *self_min));
                if other@.contains(y) {
                    assert(!lt(*other_max, y));
                }
            }
            assert(selve@.difference(other@) =~= selve@.remove(*self_min));
            iterate(self_iter)
        },
        (_, Ordering::Equal) => {
            let mut self_iter = Peeking::new(selve);
            self_iter.next_back();
            assert forall|y: T| #[trigger] selve@.contains(y) && y != *self_max implies !other@.contains(y) by {
                assert(!lt(*self_max, y));
                if other@.contains(y) {
                    assert(!lt(y, *other_min));
                }
            }
            assert(selve@.difference(other@) =~= selve@.remove(*self_max));
            iterate(self_iter)
        },
        _ => {
            if selve.len() <= other.len() / ITER_PERFORMANCE_TIPPING_SIZE_DIFF {
                Difference { inner: DifferenceInner::Search { self_iter: Peeking::new(selve), other_set: other } }
            } else {
                Difference {
                    inner: DifferenceInner::Stitch { self_iter: Peeking::new(selve), other_iter: Peeking::new(other) },
                }
            }
        },
    }
}

} // verus!
verus! {

/// Whether every element of `selve` is in `other`: the same answer as an
/// empty difference, found without producing it, and stopping at the first
/// element of `selve` that `other` lacks.
pub fn is_subset_future<'a, T: Ord>(selve: &'a BTreeSet<T>, other: &'a BTreeSet<T>) -> (r: bool)
    requires
        total_order::<T>(),
    ensures
        r == selve@.subset_of(other@),
{
    proof {
        lemma_total_order::<T>();
        lemma_tree_finite(selve);
        lemma_tree_finite(other);
    }
    if selve.len() > other.len() {
        proof {
            if selve@.subset_of(other@) {
                vstd::set_lib::lemma_len_subset(selve@, other@);
            }
        }
        return false;
    }
    let (self_min, self_max) = match (first(selve), last(selve)) {
        (Some(lo), Some(hi)) => (lo, hi),
        _ => {
            return true;
        },
    };
    let (other_min, other_max) = match (first(other), last(other)) {
        (Some(lo), Some(hi)) => (lo, hi),
        _ => {
            assert(selve@.contains(*self_min));
            return false;
        },
    };
    let mut self_iter = Peeking::new(selve);
    match self_min.cmp(other_min) {
        Ordering::Less => {
            return false;
        },
        Ordering::Equal => {
            self_iter.next();
        },
        Ordering::Greater => {},
    }
    let ghost trimmed = self_iter.rest();
    match self_max.cmp(other_max) {
        Ordering::Greater => {
            return false;
        },
        Ordering::Equal => {
            self_iter.next_back();
        },
        Ordering::Less => {},
    }
    proof {
        self_iter.lemma_rest();
        assert forall|y: T| #[trigger] self_iter.rest().contains(y) implies lt(*other_min, y) && lt(
            y,
            *other_max,
        ) by {
            assert(selve@.contains(y));
            assert(!lt(y, *self_min) && !lt(*self_max, y));
            assert(trimmed.contains(y));
            if y == *self_max {
                assert(greatest(trimmed, *self_max));
            }
        }
        assert(selve@.subset_of(other@) <==> self_iter.rest().subset_of(other@)) by {
            if self_iter.rest().subset_of(other@) {
                assert forall|y: T| #[trigger] selve@.contains(y) implies other@.contains(y) by {
                    if !trimmed.contains(y) {
                        assert(y == *self_min);
                    } else if !self_iter.rest().contains(y) {
                        assert(y == *self_max);
                    }
                }
            }
        }
    }
    if self_iter.len() <= other.len() / ITER_PERFORMANCE_TIPPING_SIZE_DIFF {
        // Far fewer elements to check than to walk past: look each one up.
        loop
            invariant
                self_iter.wf(),
                selve@.subset_of(other@) <==> self_iter.rest().subset_of(other@),
            decreases self_iter.rest().len(),
        {
            proof {
                self_iter.lemma_rest();
            }
            let ghost rs = self_iter.rest();
            match self_iter.next() {
                None => {
                    return true;
                },
                Some(x) => {
                    if !other.contains(x) {
                        return false;
                    }
                    assert(rs.subset_of(other@) <==> self_iter.rest().subset_of(other@));
                },
            }
        }
    } else {
        // Of similar size: walk the inside of `other` alongside.
        let mut other_iter = Peeking::new(other);
        other_iter.next();
        other_iter.next_back();
        assert(self_iter.rest().intersect(other@) =~= self_iter.rest().intersect(other_iter.rest()));
        loop
            invariant
                self_iter.wf(),
                other_iter.wf(),
                other_iter.source() == other@,
                selve@.subset_of(other@) <==> self_iter.rest().subset_of(other@),
                self_iter.rest().intersect(other@) == self_iter.rest().intersect(other_iter.rest()),
            decreases self_iter.rest().len() + other_iter.rest().len(),
        {
            proof {
                self_iter.lemma_rest();
                other_iter.lemma_rest();
                lemma_total_order::<T>();
            }
            let ghost (rs, ro) = (self_iter.rest(), other_iter.rest());
            let s = match self_iter.peek() {
                None => {
                    return true;
                },
                Some(s) => s,
            };
            let next_other = other_iter.next();
            let ord = match next_other {
                None => Ordering::Less,
                Some(o) => s.cmp(o),
            };
            match ord {
                Ordering::Less => {
                    assert(!ro.contains(*s));
                    assert(!rs.intersect(other@).contains(*s));
                    return false;
                },
                Ordering::Equal => {
                    assert(*s == *next_other.unwrap());
                    self_iter.next();
                    assert(rs.subset_of(other@) <==> self_iter.rest().subset_of(other@));
                    assert forall|y: T| #[trigger] self_iter.rest().contains(y) && other@.contains(y) implies other_iter.rest().contains(y) by {
                        assert(rs.intersect(other@).contains(y));
                    }
                    assert(self_iter.rest().intersect(other@) =~= self_iter.rest().intersect(
                        other_iter.rest(),
                    ));
                },
                Ordering::Greater => {
                    assert(!rs.contains(*next_other.unwrap()));
                    assert(self_iter.rest().intersect(other@) =~= self_iter.rest().intersect(
                        other_iter.rest(),
                    ));
                },
            }
        }
    }
}

impl<'a, T: Ord> AscendingCursor<'a, T> for Difference<'a, T> {
    open spec fn remaining(&self) -> Set<T> {
        self@
    }

    open spec fn valid(&self) -> bool {
        self.wf()
    }

    proof fn lemma_valid(&self) {
        match self.inner {
            DifferenceInner::Stitch { self_iter, other_iter } => {
                self_iter.lemma_rest();
                vstd::set_lib::lemma_len_difference(self_iter.rest(), other_iter.rest());
            },
            DifferenceInner::Search { self_iter, other_set } => {
                self_iter.lemma_rest();
                vstd::set_lib::lemma_len_difference(self_iter.rest(), other_set@);
            },
            DifferenceInner::Iterate(iter) => {
                iter.lemma_rest();
            },
        }
    }

    fn advance(&mut self) -> (r: Option<&'a T>) {
        self.next()
    }
}

} // verus!
