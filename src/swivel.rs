//! The intersection by a joint scan that, after a run of steps without a
//! match, seeks one side straight to where the other side stands.
use crate::cursor::AscendingCursor;
use crate::order::{above, from, min_len, least, lemma_total_order, lemma_tree_finite, lt, total_order};
use crate::tree::{first, first_above, first_from};
use crate::ITER_PERFORMANCE_TIPPING_SIZE_DIFF;
use core::cmp::Ordering;
use std::collections::BTreeSet;
use vstd::prelude::*;

verus! {

broadcast use vstd::set_lib::group_set_properties;

/// How many steps without a match one side takes before it seeks.
const NEXT_COUNT_MAX: usize = ITER_PERFORMANCE_TIPPING_SIZE_DIFF;

/// The elements of `s` from `head` on; none without a head.
spec fn rest_from<T: Ord>(s: Set<T>, head: Option<&T>) -> Set<T> {
    match head {
        None => Set::empty(),
        Some(h) => from(s, *h),
    }
}

/// A lazy cursor over the intersection of two sets, in ascending order, that
/// walks both and seeks ahead after a run of misses.
#[derive(Debug)]
pub struct IntersectionSwivel<'a, T> {
    a_set: &'a BTreeSet<T>,
    b_set: &'a BTreeSet<T>,
    a_next: Option<&'a T>,
    b_next: Option<&'a T>,
}

impl<'a, T: Ord> View for IntersectionSwivel<'a, T> {
    type V = Set<T>;

    /// The elements still to be produced.
    closed spec fn view(&self) -> Set<T> {
        rest_from(self.a_set@, self.a_next).intersect(rest_from(self.b_set@, self.b_next))
    }
}

impl<'a, T: Ord> IntersectionSwivel<'a, T> {
    /// The first set walked.
    pub closed spec fn a_source(&self) -> Set<T> {
        self.a_set@
    }

    /// The second set walked.
    pub closed spec fn b_source(&self) -> Set<T> {
        self.b_set@
    }

    /// The cursor's invariant.
    pub closed spec fn wf(&self) -> bool {
        &&& total_order::<T>()
        &&& self.a_set@.finite()
        &&& self.b_set@.finite()
        &&& self.a_next matches Some(x) ==> self.a_set@.contains(*x)
        &&& self.b_next matches Some(y) ==> self.b_set@.contains(*y)
    }

    closed spec fn left(&self) -> nat {
        rest_from(self.a_set@, self.a_next).len() + rest_from(self.b_set@, self.b_next).len()
    }

    /// Moves a head past `x`, or on to `target` where that lies further.
    fn advance(set: &'a BTreeSet<T>, x: &'a T, target: Option<&T>) -> (r: Option<&'a T>)
        requires
            total_order::<T>(),
            set@.finite(),
            set@.contains(*x),
            target matches Some(t) ==> lt(*x, *t),
        ensures
            r matches Some(z) ==> set@.contains(*z),
            rest_from(set@, r) == match target {
                None => from(set@, *x).remove(*x),
                Some(t) => from(set@, *t),
            },
    {
        proof {
            lemma_total_order::<T>();
        }
        match target {
            None => {
                let r = first_above(set, x);
                proof {
                    let ab = above(set@, *x);
                    assert forall|y: T| #[trigger] rest_from(set@, r).contains(y) <==> from(set@, *x).remove(*x).contains(y) by {
                        if set@.contains(y) && lt(*x, y) {
                            assert(ab.contains(y));
                        }
                        if let Some(z) = r {
                            assert(ab.contains(*z));
                        }
                    }
                    assert(rest_from(set@, r) =~= from(set@, *x).remove(*x));
                }
                r
            },
            Some(t) => {
                let r = first_from(set, t);
                proof {
                    let fr = from(set@, *t);
                    assert forall|y: T| #[trigger] rest_from(set@, r).contains(y) <==> fr.contains(y) by {
                        if let Some(z) = r {
                            assert(fr.contains(*z));
                        }
                    }
                    assert(rest_from(set@, r) =~= fr);
                }
                r
            },
        }
    }

    /// Produces the least element still to come, or `None` once there is
    /// none, and keeps answering `None` from then on.
    pub fn next(&mut self) -> (r: Option<&'a T>)
        requires
            old(self).wf(),
        ensures
            final(self).wf(),
            old(self)@.is_empty() ==> r is None && final(self)@.is_empty(),
            match r {
                None => old(self)@.is_empty() && final(self)@ == old(self)@,
                Some(x) => least(old(self)@, *x) && final(self)@ == old(self)@.remove(*x),
            },
            final(self).a_source() == old(self).a_source(),
            final(self).b_source() == old(self).b_source(),
    {
        let ghost goal = self@;
        let mut next_count: usize = 0;
        loop
            invariant
                self.wf(),
                self@ == goal,
                goal == old(self)@,
                self.a_source() == old(self).a_source(),
                self.b_source() == old(self).b_source(),
                next_count <= NEXT_COUNT_MAX,
            decreases self.left(),
        {
            proof {
                lemma_total_order::<T>();
                vstd::set_lib::lemma_len_subset(rest_from(self.a_set@, self.a_next), self.a_set@);
                vstd::set_lib::lemma_len_subset(rest_from(self.b_set@, self.b_next), self.b_set@);
            }
            let ghost (ra, rb) = (rest_from(self.a_set@, self.a_next), rest_from(self.b_set@, self.b_next));
            let (a_next, b_next) = match (self.a_next, self.b_next) {
                (Some(x), Some(y)) => (x, y),
                _ => {
                    return None;
                },
            };
            assert(ra.contains(*a_next) && rb.contains(*b_next));
            match a_next.cmp(b_next) {
                Ordering::Less => {
                    next_count += 1;
                    let target = if next_count > NEXT_COUNT_MAX {
                        next_count = 0;
                        Some(b_next)
                    } else {
                        None
                    };
                    self.a_next = Self::advance(self.a_set, a_next, target);
                    proof {
                        let na = rest_from(self.a_set@, self.a_next);
                        assert forall|z: T| #[trigger] na.contains(z) implies ra.contains(z) && z != *a_next by {
                            assert(from(self.a_set@, *a_next).contains(z));
                        }
                        assert forall|z: T| #[trigger] ra.contains(z) && rb.contains(z) implies na.contains(z) by {
                            assert(!lt(z, *b_next));
                        }
                        assert(self@ =~= goal);
                        assert(na.subset_of(ra.remove(*a_next)));
                        vstd::set_lib::lemma_len_subset(na, ra.remove(*a_next));
                    }
                },
                Ordering::Greater => {
                    next_count += 1;
                    let target = if next_count > NEXT_COUNT_MAX {
                        next_count = 0;
                        Some(a_next)
                    } else {
                        None
                    };
                    self.b_next = Self::advance(self.b_set, b_next, target);
                    proof {
                        let nb = rest_from(self.b_set@, self.b_next);
                        assert forall|z: T| #[trigger] nb.contains(z) implies rb.contains(z) && z != *b_next by {
                            assert(from(self.b_set@, *b_next).contains(z));
                        }
                        assert forall|z: T| #[trigger] ra.contains(z) && rb.contains(z) implies nb.contains(z) by {
                            assert(!lt(z, *a_next));
                        }
                        assert(self@ =~= goal);
                        assert(nb.subset_of(rb.remove(*b_next)));
                        vstd::set_lib::lemma_len_subset(nb, rb.remove(*b_next));
                    }
                },
                Ordering::Equal => {
                    self.a_next = Self::advance(self.a_set, a_next, None);
                    self.b_next = Self::advance(self.b_set, b_next, None);
                    proof {
                        assert(self@ =~= goal.remove(*a_next));
                        assert forall|z: T| #[trigger] goal.contains(z) implies !lt(z, *a_next) by {
                            assert(ra.contains(z));
                        }
                    }
                    return Some(a_next);
                },
            }
        }
    }

    /// Bounds on how many elements are still to come.
    pub fn size_hint(&self) -> (r: (usize, Option<usize>))
        requires
            self.wf(),
        ensures
            r.0 <= self@.len(),
            r.1 matches Some(hi) && self@.len() <= hi,
            r.0 == 0,
            r.1 == Some(min_len(self.a_source(), self.b_source()) as usize),
    {
        proof {
            let (ra, rb) = (rest_from(self.a_set@, self.a_next), rest_from(self.b_set@, self.b_next));
            vstd::set_lib::lemma_len_subset(ra, self.a_set@);
            vstd::set_lib::lemma_len_subset(rb, self.b_set@);
            vstd::set_lib::lemma_len_intersect(ra, rb);
            vstd::set_lib::lemma_len_subset(ra.intersect(rb), rb);
            lemma_total_order::<T>();
        }
        let a_len = self.a_set.len();
        let b_len = self.b_set.len();
        (0, Some(if a_len <= b_len { a_len } else { b_len }))
    }
}

/// The intersection of `a` and `b`, by walking both and seeking one side
/// ahead to the other after a run of misses.
pub fn intersection_swivel<'a, T: Ord>(a: &'a BTreeSet<T>, b: &'a BTreeSet<T>) -> (r: IntersectionSwivel<'a, T>)
    requires
        total_order::<T>(),
    ensures
        r.wf(),
        r@ == a@.intersect(b@),
        r.a_source() == a@,
        r.b_source() == b@,
{
    proof {
        lemma_total_order::<T>();
        lemma_tree_finite(a);
        lemma_tree_finite(b);
    }
    let r = IntersectionSwivel { a_set: a, b_set: b, a_next: first(a), b_next: first(b) };
    assert(rest_from(a@, r.a_next) =~= a@);
    assert(rest_from(b@, r.b_next) =~= b@);
    r
}

impl<'a, T: Ord> AscendingCursor<'a, T> for IntersectionSwivel<'a, T> {
    open spec fn remaining(&self) -> Set<T> {
        self@
    }

    open spec fn valid(&self) -> bool {
        self.wf()
    }

    proof fn lemma_valid(&self) {
        let (ra, rb) = (rest_from(self.a_set@, self.a_next), rest_from(self.b_set@, self.b_next));
        vstd::set_lib::lemma_len_subset(ra, self.a_set@);
        vstd::set_lib::lemma_len_intersect(ra, rb);
    }

    fn advance(&mut self) -> (r: Option<&'a T>) {
        self.next()
    }
}

} // verus!
