//! The merge of two ascending cursors, which reports for each element how
//! many of the two sets hold it; symmetric difference and union rest on it.
use crate::cursor::AscendingCursor;
use crate::order::{least, lemma_total_order, lt, sym_diff, total_order};
use crate::peeking::Peeking;
use core::cmp::Ordering;
use std::collections::BTreeSet;
use vstd::prelude::*;

verus! {

broadcast use vstd::set_lib::group_set_properties;

/// Two cursors walked in step.
#[derive(Debug)]
struct MergeIter<'a, T> {
    a: Peeking<'a, T>,
    b: Peeking<'a, T>,
}

impl<'a, T> Clone for MergeIter<'a, T> {
    fn clone(&self) -> (r: Self)
        ensures
            r == *self,
    {
        MergeIter { a: self.a.duplicate(), b: self.b.duplicate() }
    }
}

impl<'a, T: Ord> MergeIter<'a, T> {
    /// Both cursors' invariants.
    closed spec fn wf(&self) -> bool {
        self.a.wf() && self.b.wf()
    }

    closed spec fn left_a(&self) -> Set<T> {
        self.a.rest()
    }

    closed spec fn left_b(&self) -> Set<T> {
        self.b.rest()
    }

    proof fn lemma_finite(&self)
        requires
            self.wf(),
        ensures
            total_order::<T>(),
            self.left_a().finite(),
            self.left_b().finite(),
    {
        self.a.lemma_rest();
        self.b.lemma_rest();
    }

    fn new(a: &'a BTreeSet<T>, b: &'a BTreeSet<T>) -> (r: Self)
        requires
            total_order::<T>(),
        ensures
            r.wf(),
            r.left_a() == a@,
            r.left_b() == b@,
    {
        MergeIter { a: Peeking::new(a), b: Peeking::new(b) }
    }

    fn next(&mut self) -> (r: Option<&'a T>)
        requires
            old(self).wf(),
        ensures
            final(self).wf(),
            match r {
                None => old(self).left_a().is_empty() && old(self).left_b().is_empty()
                    && final(self).left_a() == old(self).left_a() && final(self).left_b() == old(self).left_b(),
                Some(x) => least(old(self).left_a().union(old(self).left_b()), *x)
                    && final(self).left_a() == old(self).left_a().remove(*x)
                    && final(self).left_b() == old(self).left_b().remove(*x),
            },
    {
        self.next_counted().0
    }

    /// The least element left in either cursor, taken from both, with the
    /// number of cursors that held it: 0 once both are done.
    fn next_counted(&mut self) -> (r: (Option<&'a T>, usize))
        requires
            old(self).wf(),
        ensures
            final(self).wf(),
            match r.0 {
                None => r.1 == 0 && old(self).left_a().is_empty() && old(self).left_b().is_empty()
                    && final(self).left_a() == old(self).left_a() && final(self).left_b() == old(self).left_b(),
                Some(x) => least(old(self).left_a().union(old(self).left_b()), *x)
                    && r.1 == (if old(self).left_a().contains(*x) && old(self).left_b().contains(*x) { 2usize } else { 1usize })
                    && final(self).left_a() == old(self).left_a().remove(*x)
                    && final(self).left_b() == old(self).left_b().remove(*x),
            },
    {
        proof {
            self.lemma_finite();
            lemma_total_order::<T>();
        }
        let ghost (ra, rb) = (self.a.rest(), self.b.rest());
        let (pa, pb) = (self.a.peek(), self.b.peek());
        let ord = match (pa, pb) {
            (None, None) => {
                return (None, 0);
            },
            (_, None) => Ordering::Less,
            (None, _) => Ordering::Greater,
            (Some(x), Some(y)) => x.cmp(y),
        };
        match ord {
            Ordering::Less => {
                let x = pa.unwrap();
                assert(!rb.contains(*x));
                assert(rb.remove(*x) =~= rb);
                (self.a.next(), 1)
            },
            Ordering::Greater => {
                let y = pb.unwrap();
                assert(!ra.contains(*y));
                assert(ra.remove(*y) =~= ra);
                (self.b.next(), 1)
            },
            Ordering::Equal => {
                assert(*pa.unwrap() == *pb.unwrap());
                self.b.next();
                (self.a.next(), 2)
            },
        }
    }
}

/// A lazy cursor over the elements that lie in exactly one of two sets, in
/// ascending order.
#[derive(Debug)]
pub struct SymmetricDifference<'a, T>(MergeIter<'a, T>);

impl<'a, T: Ord> View for SymmetricDifference<'a, T> {
    type V = Set<T>;

    /// The elements still to be produced.
    closed spec fn view(&self) -> Set<T> {
        sym_diff(self.0.left_a(), self.0.left_b())
    }
}

impl<'a, T: Ord> SymmetricDifference<'a, T> {
    /// What the first set's side has still to offer.
    pub closed spec fn left_a(&self) -> Set<T> {
        self.0.left_a()
    }

    /// What the second set's side has still to offer.
    pub closed spec fn left_b(&self) -> Set<T> {
        self.0.left_b()
    }

    /// The cursor's invariant.
    pub closed spec fn wf(&self) -> bool {
        self.0.wf()
    }

    /// Produces the least element still to come, or `None` once there is
    /// none, and keeps answering `None` from then on.
    pub fn next(&mut self) -> (r: Option<&'a T>)
        requires
            old(self).wf(),
        ensures
            final(self).wf(),
            old(self)@.is_empty() ==> r is None && final(self)@.is_empty(),
            match r {
                None => old(self)@.is_empty() && final(self)@ == old(self)@,
                Some(x) => least(old(self)@, *x) && final(self)@ == old(self)@.remove(*x),
            },
            final(self).left_a().subset_of(old(self).left_a()),
            final(self).left_b().subset_of(old(self).left_b()),
    {
        let ghost goal = self@;
        loop
            invariant
                self.wf(),
                self@ == goal,
                goal == old(self)@,
                self.left_a().subset_of(old(self).left_a()),
                self.left_b().subset_of(old(self).left_b()),
            decreases self.0.left_a().len() + self.0.left_b().len(),
        {
            proof {
                self.0.lemma_finite();
            }
            let ghost (ra, rb) = (self.0.left_a(), self.0.left_b());
            let (next, count) = self.0.next_counted();
            if count <= 1 {
                proof {
                    if let Some(x) = next {
                        assert(goal.contains(*x));
                        assert forall|y: T| #[trigger] goal.contains(y) implies !lt(y, *x) by {
                            assert(ra.union(rb).contains(y));
                        }
                        assert(self@ =~= goal.remove(*x));
                    } else {
                        assert(goal =~= Set::empty());
                    }
                }
                return next;
            }
            assert(self@ =~= goal);
        }
    }

    /// Bounds on how many elements are still to come.
    pub fn size_hint(&self) -> (r: (usize, Option<usize>))
        requires
            self.wf(),
        ensures
            r.0 <= self@.len(),
            r.1 matches Some(hi) ==> self@.len() <= hi,
            r.0 == 0,
            self.left_a().len() + self.left_b().len() <= usize::MAX
                ==> r.1 == Some((self.left_a().len() + self.left_b().len()) as usize),
            self.left_a().len() + self.left_b().len() > usize::MAX ==> r.1 is None,
    {
        proof {
            self.0.lemma_finite();
            let (ra, rb) = (self.0.left_a(), self.0.left_b());
            vstd::set_lib::lemma_len_union(ra, rb);
            vstd::set_lib::lemma_len_subset(self@, ra.union(rb));
        }
        (0, self.0.a.len().checked_add(self.0.b.len()))
    }
}

/// A lazy cursor over the elements of either of two sets, each once, in
/// ascending order.
#[derive(Debug)]
pub struct Union<'a, T>(MergeIter<'a, T>);

impl<'a, T> Clone for SymmetricDifference<'a, T> {
    /// A second cursor with the same elements still to come.
    fn clone(&self) -> (r: Self)
        ensures
            r == *self,
    {
        SymmetricDifference(self.0.clone())
    }
}

impl<'a, T: Ord> View for Union<'a, T> {
    type V = Set<T>;

    /// The elements still to be produced.
    closed spec fn view(&self) -> Set<T> {
        self.0.left_a().union(self.0.left_b())
    }
}

impl<'a, T: Ord> Union<'a, T> {
    /// What the first set's side has still to offer.
    pub closed spec fn left_a(&self) -> Set<T> {
        self.0.left_a()
    }

    /// What the second set's side has still to offer.
    pub closed spec fn left_b(&self) -> Set<T> {
        self.0.left_b()
    }

    /// The cursor's invariant.
    pub closed spec fn wf(&self) -> bool {
        self.0.wf()
    }

    /// Produces the least element still to come, or `None` once there is
    /// none, and keeps answering `None` from then on.
    pub fn next(&mut self) -> (r: Option<&'a T>)
        requires
            old(self).wf(),
        ensures
            final(self).wf(),
            old(self)@.is_empty() ==> r is None && final(self)@.is_empty(),
            match r {
                None => old(self)@.is_empty() && final(self)@ == old(self)@,
                Some(x) => least(old(self)@, *x) && final(self)@ == old(self)@.remove(*x),
            },
            match r {
                None => final(self).left_a() == old(self).left_a() && final(self).left_b() == old(self).left_b(),
                Some(x) => final(self).left_a() == old(self).left_a().remove(*x)
                    && final(self).left_b() == old(self).left_b().remove(*x),
            },
    {
        let r = self.0.next();
        proof {
            if let Some(x) = r {
                assert(self@ =~= old(self)@.remove(*x));
            } else {
                assert(old(self)@ =~= Set::empty());
            }
        }
        r
    }

    /// Bounds on how many elements are still to come.
    pub fn size_hint(&self) -> (r: (usize, Option<usize>))
        requires
            self.wf(),
        ensures
            r.0 <= self@.len(),
            r.1 matches Some(hi) ==> self@.len() <= hi,
            r.0 == if self.left_a().len() >= self.left_b().len() { self.left_a().len() } else { self.left_b().len() },
            self.left_a().len() + self.left_b().len() <= usize::MAX
                ==> r.1 == Some((self.left_a().len() + self.left_b().len()) as usize),
            self.left_a().len() + self.left_b().len() > usize::MAX ==> r.1 is None,
    {
        proof {
            self.0.lemma_finite();
            let (ra, rb) = (self.0.left_a(), self.0.left_b());
            vstd::set_lib::lemma_len_union(ra, rb);
            vstd::set_lib::lemma_len_union_ind(ra, rb);
        }
        let a_len = self.0.a.len();
        let b_len = self.0.b.len();
        (if a_len >= b_len { a_len } else { b_len }, a_len.checked_add(b_len))
    }
}

impl<'a, T> Clone for Union<'a, T> {
    /// A second cursor with the same elements still to come.
    fn clone(&self) -> (r: Self)
        ensures
            r == *self,
    {
        Union(self.0.clone())
    }
}

/// The elements that lie in exactly one of `selve` and `other`.
pub fn symmdiff_future<'a, T: Ord>(selve: &'a BTreeSet<T>, other: &'a BTreeSet<T>) -> (r: SymmetricDifference<'a, T>)
    requires
        total_order::<T>(),
    ensures
        r.wf(),
        r@ == sym_diff(selve@, other@),
        r.left_a() == selve@,
        r.left_b() == other@,
{
    SymmetricDifference(MergeIter::new(selve, other))
}

/// The elements of `selve` and of `other`, each once.
pub fn union_future<'a, T: Ord>(selve: &'a BTreeSet<T>, other: &'a BTreeSet<T>) -> (r: Union<'a, T>)
    requires
        total_order::<T>(),
    ensures
        r.wf(),
        r@ == selve@.union(other@),
        r.left_a() == selve@,
        r.left_b() == other@,
{
    Union(MergeIter::new(selve, other))
}

impl<'a, T: Ord> AscendingCursor<'a, T> for SymmetricDifference<'a, T> {
    open spec fn remaining(&self) -> Set<T> {
        self@
    }

    open spec fn valid(&self) -> bool {
        self.wf()
    }

    proof fn lemma_valid(&self) {
        self.0.lemma_finite();
        let (ra, rb) = (self.0.left_a(), self.0.left_b());
        vstd::set_lib::lemma_len_union(ra, rb);
        vstd::set_lib::lemma_len_subset(self@, ra.union(rb));
    }

    fn advance(&mut self) -> (r: Option<&'a T>) {
        self.next()
    }
}

impl<'a, T: Ord> AscendingCursor<'a, T> for Union<'a, T> {
    open spec fn remaining(&self) -> Set<T> {
        self@
    }

    open spec fn valid(&self) -> bool {
        self.wf()
    }

    proof fn lemma_valid(&self) {
        self.0.lemma_finite();
        vstd::set_lib::lemma_len_union(self.0.left_a(), self.0.left_b());
    }

    fn advance(&mut self) -> (r: Option<&'a T>) {
        self.next()
    }
}

} // verus!
