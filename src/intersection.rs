//! The intersection of two sets, by a joint scan, by a search of the smaller
//! set in the larger, or straight from the sets' bounds.
use crate::cursor::AscendingCursor;
use crate::order::{bounds_settle, min_len, greatest, lemma_bounds_settle, least, lemma_total_order, lemma_tree_finite, lt, total_order};
use crate::peeking::Peeking;
use crate::scan::{search_next, stitch_next};
use crate::tree::{first, last};
use crate::ITER_PERFORMANCE_TIPPING_SIZE_DIFF;
use core::cmp::Ordering;
use std::collections::BTreeSet;
use vstd::prelude::*;

verus! {

broadcast use vstd::set_lib::group_set_properties;

/// A lazy cursor over the intersection of two sets, in ascending order.
#[derive(Debug)]
pub struct Intersection<'a, T> {
    inner: IntersectionInner<'a, T>,
}

#[derive(Debug)]
enum IntersectionInner<'a, T> {
    /// Walk sets of similar size jointly, spotting matches on the way.
    Stitch { a: Peeking<'a, T>, b: Peeking<'a, T> },
    /// Walk a small set and look each element up in the large one.
    Search { small_iter: Peeking<'a, T>, large_set: &'a BTreeSet<T> },
    /// A result known in advance: one element or none.
    Answer(Option<&'a T>),
}

impl<'a, T: Ord> View for Intersection<'a, T> {
    type V = Set<T>;

    /// The elements still to be produced.
    closed spec fn view(&self) -> Set<T> {
        match self.inner {
            IntersectionInner::Stitch { a, b } => a.rest().intersect(b.rest()),
            IntersectionInner::Search { small_iter, large_set } => small_iter.rest().intersect(large_set@),
            IntersectionInner::Answer(None) => Set::empty(),
            IntersectionInner::Answer(Some(x)) => set![*x],
        }
    }
}

impl<'a, T: Ord> Intersection<'a, T> {
    /// The most elements the cursor can still produce by its strategy's
    /// reckoning: the remaining length of the shorter side walked, or the
    /// size of an answer known in advance.
    pub closed spec fn bound(&self) -> nat {
        match self.inner {
            IntersectionInner::Stitch { a, b } => min_len(a.rest(), b.rest()),
            IntersectionInner::Search { small_iter, .. } => small_iter.rest().len(),
            IntersectionInner::Answer(None) => 0,
            IntersectionInner::Answer(Some(_)) => 1,
        }
    }

    /// The answer was known in advance, from the sets' bounds.
    pub closed spec fn settled(&self) -> bool {
        self.inner is Answer
    }

    /// The cursor's invariant.
    pub closed spec fn wf(&self) -> bool {
        &&& total_order::<T>()
        &&& match self.inner {
            IntersectionInner::Stitch { a, b } => a.wf() && b.wf(),
            IntersectionInner::Search { small_iter, large_set } => small_iter.wf(),
            IntersectionInner::Answer(_) => true,
        }
    }

    proof fn lemma_finite(&self)
        requires
            self.wf(),
        ensures
            self@.finite(),
    {
        match self.inner {
            IntersectionInner::Stitch { a, b } => {
                a.lemma_rest();
                vstd::set_lib::lemma_len_intersect(a.rest(), b.rest());
            },
            IntersectionInner::Search { small_iter, large_set } => {
                small_iter.lemma_rest();
                vstd::set_lib::lemma_len_intersect(small_iter.rest(), large_set@);
            },
            IntersectionInner::Answer(_) => {},
        }
    }

    /// Produces the least element still to come, or `None` once there is
    /// none, and keeps answering `None` from then on.
    pub fn next(&mut self) -> (r: Option<&'a T>)
        requires
            old(self).wf(),
        ensures
            final(self).wf(),
            old(self)@.is_empty() ==> r is None && final(self)@.is_empty(),
            match r {
                None => old(self)@.is_empty() && final(self)@ == old(self)@,
                Some(x) => least(old(self)@, *x) && final(self)@ == old(self)@.remove(*x),
            },
            final(self).settled() == old(self).settled(),
            final(self).bound() <= old(self).bound(),
    {
        match &mut self.inner {
            IntersectionInner::Stitch { a, b } => {
                let ghost (ra, rb) = (a.rest(), b.rest());
                proof {
                    a.lemma_rest();
                    b.lemma_rest();
                }
                let r = stitch_next(a, b);
                proof {
                    vstd::set_lib::lemma_len_subset(a.rest(), ra);
                    vstd::set_lib::lemma_len_subset(b.rest(), rb);
                }
                r
            },
            IntersectionInner::Search { small_iter, large_set } => {
                let ghost rs = small_iter.rest();
                proof {
                    small_iter.lemma_rest();
                }
                let r = search_next(small_iter, large_set);
                proof {
                    vstd::set_lib::lemma_len_subset(small_iter.rest(), rs);
                }
                r
            },
            IntersectionInner::Answer(answer) => {
                let r = *answer;
                *answer = None;
                proof {
                    lemma_total_order::<T>();
                    if let Some(x) = r {
                        assert(set![*x].remove(*x) =~= Set::<T>::empty());
                    }
                }
                r
            },
        }
    }

    /// Bounds on how many elements are still to come.
    pub fn size_hint(&self) -> (r: (usize, Option<usize>))
        requires
            self.wf(),
        ensures
            r.0 <= self@.len(),
            r.1 matches Some(hi) && self@.len() <= hi,
            self.settled() ==> r.0 == self@.len() && r.1 == Some(r.0),
            !self.settled() ==> r.0 == 0,
            r.1 == Some(self.bound() as usize),
    {
        proof {
            self.lemma_finite();
        }
        match &self.inner {
            IntersectionInner::Stitch { a, b } => {
                proof {
                    a.lemma_rest();
                    b.lemma_rest();
                    vstd::set_lib::lemma_len_intersect(a.rest(), b.rest());
                    vstd::set_lib::lemma_len_subset(a.rest().intersect(b.rest()), b.rest());
                }
                let (la, lb) = (a.len(), b.len());
                (0, Some(if la <= lb { la } else { lb }))
            },
            IntersectionInner::Search { small_iter, large_set } => {
                proof {
                    small_iter.lemma_rest();
                    vstd::set_lib::lemma_len_intersect(small_iter.rest(), large_set@);
                }
                (0, Some(small_iter.len()))
            },
            IntersectionInner::Answer(None) => (0, Some(0)),
            IntersectionInner::Answer(Some(_)) => (1, Some(1)),
        }
    }
}

/// The cursor that yields nothing.
fn answer_none<'a, T: Ord>() -> (r: Intersection<'a, T>)
    requires
        total_order::<T>(),
    ensures
        r.wf(),
        r.settled(),
        r.bound() == 0,
        r@ == Set::<T>::empty(),
{
    Intersection { inner: IntersectionInner::Answer(None) }
}

/// The intersection of `selve` and `other`, by the strategy that their sizes
/// and bounds call for: nothing or a single element where the bounds settle
/// it, a search where one set is much smaller than the other, a joint scan
/// otherwise.
pub fn intersection_future<'a, T: Ord>(selve: &'a BTreeSet<T>, other: &'a BTreeSet<T>) -> (r: Intersection<'a, T>)
    requires
        total_order::<T>(),
    ensures
        r.wf(),
        r@ == selve@.intersect(other@),
        r.settled() == bounds_settle(selve@, other@),
        r.bound() == if r.settled() { r@.len() } else { min_len(selve@, other@) },
{
    proof {
        lemma_total_order::<T>();
        lemma_tree_finite(selve);
        lemma_tree_finite(other);
    }
    let (self_min, self_max) = match (first(selve), last(selve)) {
        (Some(lo), Some(hi)) => (lo, hi),
        _ => {
            assert(selve@.intersect(other@) =~= Set::empty());
            return answer_none();
        },
    };
    let (other_min, other_max) = match (first(other), last(other)) {
        (Some(lo), Some(hi)) => (lo, hi),
        _ => {
            assert(selve@.intersect(other@) =~= Set::empty());
            return answer_none();
        },
    };
    proof {
        lemma_bounds_settle(selve@, other@, *self_min, *self_max, *other_min, *other_max);
    }
    let inner = match (self_min.cmp(other_max), self_max.cmp(other_min)) {
        (Ordering::Greater, _) | (_, Ordering::Less) => {
            assert forall|y: T| !(#[trigger] selve@.contains(y) && other@.contains(y)) by {
                if selve@.contains(y) && other@.contains(y) {
                    assert(!lt(y, *self_min) && !lt(*other_max, y));
                    assert(!lt(*self_max, y) && !lt(y, *other_min));
                }
            }
            assert(selve@.intersect(other@) =~= Set::empty());
            IntersectionInner::Answer(None)
        },
        (Ordering::Equal, _) => {
            assert(selve@.intersect(other@) =~= set![*self_min]);
            IntersectionInner::Answer(Some(self_min))
        },
        (_, Ordering::Equal) => {
            assert(selve@.intersect(other@) =~= set![*self_max]);
            IntersectionInner::Answer(Some(self_max))
        },
        _ => {
            if selve.len() <= other.len() / ITER_PERFORMANCE_TIPPING_SIZE_DIFF {
                IntersectionInner::Search { small_iter: Peeking::new(selve), large_set: other }
            } else if other.len() <= selve.len() / ITER_PERFORMANCE_TIPPING_SIZE_DIFF {
                let r = IntersectionInner::Search { small_iter: Peeking::new(other), large_set: selve };
                assert(other@.intersect(selve@) =~= selve@.intersect(other@));
                r
            } else {
                IntersectionInner::Stitch { a: Peeking::new(selve), b: Peeking::new(other) }
            }
        },
    };
    Intersection { inner }
}

/// The intersection of `small` and `large`, by looking each element of
/// `small` up in `large`; meant for a `small` that is not the larger set.
pub fn intersection_search<'a, T: Ord>(small: &'a BTreeSet<T>, large: &'a BTreeSet<T>) -> (r: Intersection<'a, T>)
    requires
        total_order::<T>(),
        small@.len() <= large@.len(),
    ensures
        r.wf(),
        r@ == small@.intersect(large@),
        !r.settled(),
        r.bound() == small@.len(),
{
    Intersection { inner: IntersectionInner::Search { small_iter: Peeking::new(small), large_set: large } }
}

/// The intersection of `a` and `b`, by walking both jointly.
pub fn intersection_stitch<'a, T: Ord>(a: &'a BTreeSet<T>, b: &'a BTreeSet<T>) -> (r: Intersection<'a, T>)
    requires
        total_order::<T>(),
    ensures
        r.wf(),
        r@ == a@.intersect(b@),
        !r.settled(),
        r.bound() == min_len(a@, b@),
{
    Intersection { inner: IntersectionInner::Stitch { a: Peeking::new(a), b: Peeking::new(b) } }
}

impl<'a, T: Ord> AscendingCursor<'a, T> for Intersection<'a, T> {
    open spec fn remaining(&self) -> Set<T> {
        self@
    }

    open spec fn valid(&self) -> bool {
        self.wf()
    }

    proof fn lemma_valid(&self) {
        self.lemma_finite();
    }

    fn advance(&mut self) -> (r: Option<&'a T>) {
        self.next()
    }
}

impl<'a, T> Clone for Intersection<'a, T> {
    /// A second cursor with the same elements still to come.
    fn clone(&self) -> (r: Self)
        ensures
            r == *self,
    {
        Intersection {
            inner: match &self.inner {
                IntersectionInner::Stitch { a, b } => IntersectionInner::Stitch { a: a.duplicate(), b: b.duplicate() },
                IntersectionInner::Search { small_iter, large_set } => IntersectionInner::Search {
                    small_iter: small_iter.duplicate(),
                    large_set,
                },
                IntersectionInner::Answer(answer) => IntersectionInner::Answer(*answer),
            },
        }
    }
}

} // verus!
