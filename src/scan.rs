//! The two building blocks that every strategy reuses: a joint scan of two
//! cursors, and a search of one cursor's elements in a whole set.
use crate::order::{least, lemma_total_order, lt, total_order};
use crate::peeking::Peeking;
use core::cmp::Ordering;
use std::collections::BTreeSet;
use vstd::prelude::*;

verus! {

broadcast use vstd::set_lib::group_set_properties;

/// Takes elements of `small` until one lies in `large`, and returns it.
pub(crate) fn search_next<'a, T: Ord>(small: &mut Peeking<'a, T>, large: &BTreeSet<T>) -> (r: Option<&'a T>)
    requires
        old(small).wf(),
    ensures
        final(small).wf(),
        final(small).rest().subset_of(old(small).rest()),
        match r {
            None => old(small).rest().intersect(large@).is_empty()
                && final(small).rest().intersect(large@) == old(small).rest().intersect(large@),
            Some(x) => least(old(small).rest().intersect(large@), *x)
                && final(small).rest().intersect(large@) == old(small).rest().intersect(large@).remove(*x),
        },
{
    let ghost goal = small.rest().intersect(large@);
    proof {
        small.lemma_rest();
        lemma_total_order::<T>();
    }
    loop
        invariant
            small.wf(),
            small.rest().subset_of(old(small).rest()),
            small.rest().intersect(large@) == goal,
            goal == old(small).rest().intersect(large@),
        decreases small.rest().len(),
    {
        proof {
            small.lemma_rest();
            lemma_total_order::<T>();
        }
        let ghost before = small.rest();
        match small.next() {
            None => {
                return None;
            },
            Some(x) => {
                if large.contains(x) {
                    proof {
                        assert(small.rest().intersect(large@) =~= goal.remove(*x));
                        assert forall|y: T| #[trigger] goal.contains(y) implies !lt(y, *x) by {
                            assert(before.contains(y));
                        }
                    }
                    return Some(x);
                }
                proof {
                    assert(small.rest().intersect(large@) =~= goal);
                }
            },
        }
    }
}

/// Walks `a` and `b` jointly until they meet on an element, and returns it.
pub(crate) fn stitch_next<'a, T: Ord>(a: &mut Peeking<'a, T>, b: &mut Peeking<'a, T>) -> (r: Option<&'a T>)
    requires
        old(a).wf(),
        old(b).wf(),
    ensures
        final(a).wf(),
        final(b).wf(),
        final(a).rest().subset_of(old(a).rest()),
        final(b).rest().subset_of(old(b).rest()),
        match r {
            None => old(a).rest().intersect(old(b).rest()).is_empty()
                && final(a).rest().intersect(final(b).rest()) == old(a).rest().intersect(old(b).rest()),
            Some(x) => least(old(a).rest().intersect(old(b).rest()), *x)
                && final(a).rest().intersect(final(b).rest())
                    == old(a).rest().intersect(old(b).rest()).remove(*x),
        },
{
    let ghost goal = a.rest().intersect(b.rest());
    proof {
        a.lemma_rest();
        lemma_total_order::<T>();
    }
    loop
        invariant
            a.wf(),
            b.wf(),
            a.rest().subset_of(old(a).rest()),
            b.rest().subset_of(old(b).rest()),
            goal == old(a).rest().intersect(old(b).rest()),
            a.rest().intersect(b.rest()) == goal,
        decreases a.rest().len() + b.rest().len(),
    {
        proof {
            a.lemma_rest();
            b.lemma_rest();
            lemma_total_order::<T>();
        }
        let ghost ra = a.rest();
        let ghost rb = b.rest();
        match (a.peek(), b.peek()) {
            (Some(x), Some(y)) => {
                match x.cmp(y) {
                    Ordering::Less => {
                        a.next();
                        proof {
                            assert(!rb.contains(*x));
                            assert(a.rest().intersect(b.rest()) =~= goal);
                        }
                    },
                    Ordering::Greater => {
                        b.next();
                        proof {
                            assert(!ra.contains(*y));
                            assert(a.rest().intersect(b.rest()) =~= goal);
                        }
                    },
                    Ordering::Equal => {
                        a.next();
                        b.next();
                        proof {
                            assert(a.rest().intersect(b.rest()) =~= goal.remove(*x));
                        }
                        return Some(x);
                    },
                }
            },
            _ => {
                return None;
            },
        }
    }
}

} // verus!
