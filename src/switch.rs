//! The intersection by a joint scan that falls back to a search as soon as
//! one side has far fewer elements left than the other.
use crate::cursor::AscendingCursor;
use crate::order::{bounds_settle, min_len, lemma_bounds_settle, least, lemma_total_order, lemma_tree_finite, lt, total_order};
use crate::peeking::Peeking;
use crate::scan::search_next;
use crate::tree::{first, last};
use crate::ITER_PERFORMANCE_TIPPING_SIZE_DIFF;
use core::cmp::Ordering;
use std::collections::BTreeSet;
use vstd::prelude::*;

verus! {

broadcast use vstd::set_lib::group_set_properties;

/// A lazy cursor over the intersection of two sets, in ascending order, that
/// picks its strategy again at every step.
#[derive(Debug)]
pub struct IntersectionSwitch<'a, T> {
    inner: IntersectionSwitchInner<'a, T>,
}

#[derive(Debug)]
enum IntersectionSwitchInner<'a, T> {
    /// Walk both sets jointly, ready to look up the rest of one in the other.
    Stitch { a_iter: Peeking<'a, T>, a_set: &'a BTreeSet<T>, b_iter: Peeking<'a, T>, b_set: &'a BTreeSet<T> },
    /// Walk what is left of the small side and look each element up.
    Search { small_iter: Peeking<'a, T>, large_set: &'a BTreeSet<T> },
    /// A result known in advance: one element or none.
    Answer(Option<&'a T>),
}

/// Whatever either cursor has passed by lies in neither one's rest: the rest
/// of one meets the whole other set only where it meets the other's rest.
spec fn in_step<T>(a_rest: Set<T>, a_set: Set<T>, b_rest: Set<T>, b_set: Set<T>) -> bool {
    &&& a_rest.intersect(b_set) == a_rest.intersect(b_rest)
    &&& b_rest.intersect(a_set) == b_rest.intersect(a_rest)
}

impl<'a, T: Ord> View for IntersectionSwitch<'a, T> {
    type V = Set<T>;

    /// The elements still to be produced.
    closed spec fn view(&self) -> Set<T> {
        match self.inner {
            IntersectionSwitchInner::Stitch { a_iter, a_set, b_iter, b_set } => a_iter.rest().intersect(b_iter.rest()),
            IntersectionSwitchInner::Search { small_iter, large_set } => small_iter.rest().intersect(large_set@),
            IntersectionSwitchInner::Answer(None) => Set::empty(),
            IntersectionSwitchInner::Answer(Some(x)) => set![*x],
        }
    }
}

impl<'a, T: Ord> IntersectionSwitch<'a, T> {
    /// The most elements the cursor can still produce by its strategy's
    /// reckoning: the remaining length of the shorter side, or the size of
    /// an answer known in advance.
    pub closed spec fn bound(&self) -> nat {
        match self.inner {
            IntersectionSwitchInner::Stitch { a_iter, b_iter, .. } => min_len(a_iter.rest(), b_iter.rest()),
            IntersectionSwitchInner::Search { small_iter, .. } => small_iter.rest().len(),
            IntersectionSwitchInner::Answer(None) => 0,
            IntersectionSwitchInner::Answer(Some(_)) => 1,
        }
    }

    /// The answer was known in advance, from the sets' bounds.
    pub closed spec fn settled(&self) -> bool {
        self.inner is Answer
    }

    /// The cursor's invariant.
    pub closed spec fn wf(&self) -> bool {
        &&& total_order::<T>()
        &&& match self.inner {
            IntersectionSwitchInner::Stitch { a_iter, a_set, b_iter, b_set } => {
                &&& a_iter.wf()
                &&& b_iter.wf()
                &&& a_iter.source() == a_set@
                &&& b_iter.source() == b_set@
                &&& in_step(a_iter.rest(), a_set@, b_iter.rest(), b_set@)
            },
            IntersectionSwitchInner::Search { small_iter, large_set } => small_iter.wf(),
            IntersectionSwitchInner::Answer(_) => true,
        }
    }

    /// How far the cursor is from having to answer: a switch of strategy or
    /// a step of the scan each bring it closer.
    closed spec fn distance(&self) -> nat {
        match self.inner {
            IntersectionSwitchInner::Stitch { a_iter, b_iter, .. } => 1 + a_iter.rest().len() + b_iter.rest().len(),
            _ => 0,
        }
    }

    /// Drops the joint scan for a search of what is left of one side.
    fn fall_back(&mut self, a_is_small: bool)
        requires
            old(self).wf(),
            match old(self).inner {
                IntersectionSwitchInner::Stitch { a_iter, b_iter, .. } => if a_is_small {
                    a_iter.rest().len() <= b_iter.rest().len()
                } else {
                    b_iter.rest().len() <= a_iter.rest().len()
                },
                _ => false,
            },
        ensures
            final(self).wf(),
            final(self)@ == old(self)@,
            final(self).distance() == 0,
            !final(self).settled(),
            final(self).bound() == old(self).bound(),
    {
        let mut taken = IntersectionSwitchInner::Answer(None);
        core::mem::swap(&mut self.inner, &mut taken);
        match taken {
            IntersectionSwitchInner::Stitch { a_iter, a_set, b_iter, b_set } => {
                if a_is_small {
                    self.inner = IntersectionSwitchInner::Search { small_iter: a_iter, large_set: b_set };
                } else {
                    self.inner = IntersectionSwitchInner::Search { small_iter: b_iter, large_set: a_set };
                    assert(b_iter.rest().intersect(a_set@) =~= a_iter.rest().intersect(b_iter.rest()));
                }
            },
            _ => {
                self.inner = taken;
            },
        }
    }

    /// Produces the least element still to come, or `None` once there is
    /// none, and keeps answering `None` from then on.
    pub fn next(&mut self) -> (r: Option<&'a T>)
        requires
            old(self).wf(),
        ensures
            final(self).wf(),
            old(self)@.is_empty() ==> r is None && final(self)@.is_empty(),
            match r {
                None => old(self)@.is_empty() && final(self)@ == old(self)@,
                Some(x) => least(old(self)@, *x) && final(self)@ == old(self)@.remove(*x),
            },
            final(self).settled() == old(self).settled(),
            final(self).bound() <= old(self).bound(),
    {
        let ghost goal = self@;
        loop
            invariant
                self.wf(),
                self@ == goal,
                goal == old(self)@,
                self.settled() == old(self).settled(),
                self.bound() <= old(self).bound(),
            decreases self.distance(),
        {
            // Before every step, see whether one side has so few elements
            // left that looking them up beats walking on.
            let small = match &self.inner {
                IntersectionSwitchInner::Stitch { a_iter, b_iter, .. } => {
                    let (a_len, b_len) = (a_iter.len(), b_iter.len());
                    if a_len <= b_len / ITER_PERFORMANCE_TIPPING_SIZE_DIFF {
                        Some(true)
                    } else if b_len <= a_len / ITER_PERFORMANCE_TIPPING_SIZE_DIFF {
                        Some(false)
                    } else {
                        None
                    }
                },
                _ => None,
            };
            if let Some(a_is_small) = small {
                self.fall_back(a_is_small);
            } else {
                match &mut self.inner {
                    IntersectionSwitchInner::Stitch { a_iter, b_iter, .. } => {
                        let ghost (ra, rb) = (a_iter.rest(), b_iter.rest());
                        proof {
                            a_iter.lemma_rest();
                            b_iter.lemma_rest();
                        }
                        let found = stitch_step(a_iter, b_iter);
                        proof {
                            vstd::set_lib::lemma_len_subset(a_iter.rest(), ra);
                            vstd::set_lib::lemma_len_subset(b_iter.rest(), rb);
                        }
                        if let Some(found) = found {
                            return found;
                        }
                    },
                    IntersectionSwitchInner::Search { small_iter, large_set } => {
                        let ghost rs = small_iter.rest();
                        proof {
                            small_iter.lemma_rest();
                        }
                        let r = search_next(small_iter, large_set);
                        proof {
                            vstd::set_lib::lemma_len_subset(small_iter.rest(), rs);
                        }
                        return r;
                    },
                    IntersectionSwitchInner::Answer(answer) => {
                        let r = *answer;
                        *answer = None;
                        proof {
                            lemma_total_order::<T>();
                            if let Some(x) = r {
                                assert(set![*x].remove(*x) =~= Set::<T>::empty());
                            }
                        }
                        return r;
                    },
                }
            }
        }
    }

    /// Bounds on how many elements are still to come.
    pub fn size_hint(&self) -> (r: (usize, Option<usize>))
        requires
            self.wf(),
        ensures
            r.0 <= self@.len(),
            r.1 matches Some(hi) && self@.len() <= hi,
            self.settled() ==> r.0 == self@.len() && r.1 == Some(r.0),
            !self.settled() ==> r.0 == 0,
            r.1 == Some(self.bound() as usize),
    {
        match &self.inner {
            IntersectionSwitchInner::Stitch { a_iter, b_iter, .. } => {
                proof {
                    a_iter.lemma_rest();
                    b_iter.lemma_rest();
                    vstd::set_lib::lemma_len_intersect(a_iter.rest(), b_iter.rest());
                    vstd::set_lib::lemma_len_subset(a_iter.rest().intersect(b_iter.rest()), b_iter.rest());
                }
                let (a_len, b_len) = (a_iter.len(), b_iter.len());
                (0, Some(if a_len <= b_len { a_len } else { b_len }))
            },
            IntersectionSwitchInner::Search { small_iter, large_set } => {
                proof {
                    small_iter.lemma_rest();
                    vstd::set_lib::lemma_len_intersect(small_iter.rest(), large_set@);
                }
                (0, Some(small_iter.len()))
            },
            IntersectionSwitchInner::Answer(None) => (0, Some(0)),
            IntersectionSwitchInner::Answer(Some(_)) => {
                assert(set![*self.inner->Answer_0->0].len() == 1);
                (1, Some(1))
            },
        }
    }
}

impl<'a, T> Clone for IntersectionSwitch<'a, T> {
    /// A second cursor with the same elements still to come.
    fn clone(&self) -> (r: Self)
        ensures
            r == *self,
    {
        IntersectionSwitch {
            inner: match &self.inner {
                IntersectionSwitchInner::Stitch { a_iter, a_set, b_iter, b_set } => IntersectionSwitchInner::Stitch {
                    a_iter: a_iter.duplicate(),
                    a_set,
                    b_iter: b_iter.duplicate(),
                    b_set,
                },
                IntersectionSwitchInner::Search { small_iter, large_set } => IntersectionSwitchInner::Search {
                    small_iter: small_iter.duplicate(),
                    large_set,
                },
                IntersectionSwitchInner::Answer(answer) => IntersectionSwitchInner::Answer(*answer),
            },
        }
    }
}

/// Taking from the two rests keeps them in step, so long as nothing is
/// taken from one side that the other side still holds.
proof fn lemma_in_step_kept<T>(ra: Set<T>, sa: Set<T>, rb: Set<T>, sb: Set<T>, na: Set<T>, nb: Set<T>)
    requires
        in_step(ra, sa, rb, sb),
        ra.subset_of(sa),
        rb.subset_of(sb),
        na.subset_of(ra),
        nb.subset_of(rb),
        forall|z: T| #[trigger] na.contains(z) && rb.contains(z) ==> nb.contains(z),
        forall|z: T| #[trigger] nb.contains(z) && ra.contains(z) ==> na.contains(z),
    ensures
        in_step(na, sa, nb, sb),
{
    assert forall|z: T| #[trigger] na.contains(z) && sb.contains(z) implies nb.contains(z) by {
        assert(ra.intersect(sb).contains(z));
    }
    assert forall|z: T| #[trigger] nb.contains(z) && sa.contains(z) implies na.contains(z) by {
        assert(rb.intersect(sa).contains(z));
    }
    assert(na.intersect(sb) =~= na.intersect(nb));
    assert(nb.intersect(sa) =~= nb.intersect(na));
}

/// One step of the joint scan: `None` after stepping past an element that
/// the other side lacks, `Some` with the answer when the heads meet or one
/// side is done.
fn stitch_step<'a, T: Ord>(a: &mut Peeking<'a, T>, b: &mut Peeking<'a, T>) -> (r: Option<Option<&'a T>>)
    requires
        old(a).wf(),
        old(b).wf(),
        in_step(old(a).rest(), old(a).source(), old(b).rest(), old(b).source()),
    ensures
        final(a).wf(),
        final(b).wf(),
        final(a).source() == old(a).source(),
        final(b).source() == old(b).source(),
        final(a).rest().subset_of(old(a).rest()),
        final(b).rest().subset_of(old(b).rest()),
        in_step(final(a).rest(), final(a).source(), final(b).rest(), final(b).source()),
        match r {
            None => final(a).rest().intersect(final(b).rest()) == old(a).rest().intersect(old(b).rest())
                && final(a).rest().len() + final(b).rest().len() < old(a).rest().len() + old(b).rest().len(),
            Some(None) => old(a).rest().intersect(old(b).rest()).is_empty()
                && final(a).rest().intersect(final(b).rest()) == old(a).rest().intersect(old(b).rest()),
            Some(Some(x)) => least(old(a).rest().intersect(old(b).rest()), *x)
                && final(a).rest().intersect(final(b).rest()) == old(a).rest().intersect(old(b).rest()).remove(*x),
        },
{
    proof {
        a.lemma_rest();
        b.lemma_rest();
        lemma_total_order::<T>();
    }
    let ghost (ra, rb) = (a.rest(), b.rest());
    let ghost (sa, sb) = (a.source(), b.source());
    match (a.peek(), b.peek()) {
        (Some(x), Some(y)) => match x.cmp(y) {
            Ordering::Less => {
                a.next();
                proof {
                    assert(!rb.contains(*x));
                    assert(a.rest().intersect(b.rest()) =~= ra.intersect(rb));
                    lemma_in_step_kept(ra, sa, rb, sb, a.rest(), b.rest());
                }
                None
            },
            Ordering::Greater => {
                b.next();
                proof {
                    assert(!ra.contains(*y));
                    assert(a.rest().intersect(b.rest()) =~= ra.intersect(rb));
                    lemma_in_step_kept(ra, sa, rb, sb, a.rest(), b.rest());
                }
                None
            },
            Ordering::Equal => {
                a.next();
                b.next();
                proof {
                    assert(a.rest().intersect(b.rest()) =~= ra.intersect(rb).remove(*x));
                    lemma_in_step_kept(ra, sa, rb, sb, a.rest(), b.rest());
                }
                Some(Some(x))
            },
        },
        _ => Some(None),
    }
}

/// The intersection of `selve` and `other`: nothing or a single element
/// where the sets' bounds settle it, otherwise a joint scan that turns into
/// a search once one side has far fewer elements left than the other.
pub fn intersection_switch<'a, T: Ord>(selve: &'a BTreeSet<T>, other: &'a BTreeSet<T>) -> (r: IntersectionSwitch<'a, T>)
    requires
        total_order::<T>(),
    ensures
        r.wf(),
        r@ == selve@.intersect(other@),
        r.settled() == bounds_settle(selve@, other@),
        r.bound() == if r.settled() { r@.len() } else { min_len(selve@, other@) },
{
    proof {
        lemma_total_order::<T>();
        lemma_tree_finite(selve);
        lemma_tree_finite(other);
    }
    let none = IntersectionSwitch { inner: IntersectionSwitchInner::Answer(None) };
    let (self_min, self_max) = match (first(selve), last(selve)) {
        (Some(lo), Some(hi)) => (lo, hi),
        _ => {
            assert(selve@.intersect(other@) =~= Set::empty());
            return none;
        },
    };
    let (other_min, other_max) = match (first(other), last(other)) {
        (Some(lo), Some(hi)) => (lo, hi),
        _ => {
            assert(selve@.intersect(other@) =~= Set::empty());
            return none;
        },
    };
    proof {
        lemma_bounds_settle(selve@, other@, *self_min, *self_max, *other_min, *other_max);
    }
    let inner = match (self_min.cmp(other_max), self_max.cmp(other_min)) {
        (Ordering::Greater, _) | (_, Ordering::Less) => {
            assert forall|y: T| !(#[trigger] selve@.contains(y) && other@.contains(y)) by {
                if selve@.contains(y) && other@.contains(y) {
                    assert(!lt(y, *self_min) && !lt(*other_max, y));
                    assert(!lt(*self_max, y) && !lt(y, *other_min));
                }
            }
            assert(selve@.intersect(other@) =~= Set::empty());
            IntersectionSwitchInner::Answer(None)
        },
        (Ordering::Equal, _) => {
            assert(selve@.intersect(other@) =~= set![*self_min]);
            IntersectionSwitchInner::Answer(Some(self_min))
        },
        (_, Ordering::Equal) => {
            assert(selve@.intersect(other@) =~= set![*self_max]);
            IntersectionSwitchInner::Answer(Some(self_max))
        },
        _ => IntersectionSwitchInner::Stitch {
            a_iter: Peeking::new(selve),
            a_set: selve,
            b_iter: Peeking::new(other),
            b_set: other,
        },
    };
    proof {
        assert(selve@.intersect(other@) =~= other@.intersect(selve@));
    }
    IntersectionSwitch { inner }
}

impl<'a, T: Ord> AscendingCursor<'a, T> for IntersectionSwitch<'a, T> {
    open spec fn remaining(&self) -> Set<T> {
        self@
    }

    open spec fn valid(&self) -> bool {
        self.wf()
    }

    proof fn lemma_valid(&self) {
        match self.inner {
            IntersectionSwitchInner::Stitch { a_iter, b_iter, .. } => {
                a_iter.lemma_rest();
                vstd::set_lib::lemma_len_intersect(a_iter.rest(), b_iter.rest());
            },
            IntersectionSwitchInner::Search { small_iter, large_set } => {
                small_iter.lemma_rest();
                vstd::set_lib::lemma_len_intersect(small_iter.rest(), large_set@);
            },
            IntersectionSwitchInner::Answer(_) => {},
        }
    }

    fn advance(&mut self) -> (r: Option<&'a T>) {
        self.next()
    }
}

} // verus!
