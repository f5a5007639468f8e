//! The calls into `BTreeSet` that vstd leaves without a specification, each
//! with the contract this crate relies on.
use crate::order::{above, from, greatest, least, total_order};
use std::collections::BTreeSet;
use std::ops::Bound;
use vstd::prelude::*;

verus! {

/// Relies on `BTreeSet::first`: the least element, or `None` for an empty set.
#[verifier::external_body]
pub(crate) fn first<'a, T: Ord>(s: &'a BTreeSet<T>) -> (r: Option<&'a T>)
    requires
        total_order::<T>(),
    ensures
        match r {
            None => s@.is_empty(),
            Some(x) => least(s@, *x),
        },
{
    s.first()
}

/// Relies on `BTreeSet::last`: the greatest element, or `None` for an empty set.
#[verifier::external_body]
pub(crate) fn last<'a, T: Ord>(s: &'a BTreeSet<T>) -> (r: Option<&'a T>)
    requires
        total_order::<T>(),
    ensures
        match r {
            None => s@.is_empty(),
            Some(x) => greatest(s@, *x),
        },
{
    s.last()
}

/// Relies on `BTreeSet::range` over `(Excluded(b), Unbounded)`, which never
/// panics: its first item is the least element after `b`.
#[verifier::external_body]
pub(crate) fn first_above<'a, T: Ord>(s: &'a BTreeSet<T>, b: &T) -> (r: Option<&'a T>)
    requires
        total_order::<T>(),
    ensures
        match r {
            None => above(s@, *b).is_empty(),
            Some(x) => least(above(s@, *b), *x),
        },
{
    s.range::<T, (Bound<&T>, Bound<&T>)>((Bound::Excluded(b), Bound::Unbounded)).next()
}

/// Relies on `BTreeSet::range` over `(Included(b), Unbounded)`, which never
/// panics: its first item is the least element at `b` or after it.
#[verifier::external_body]
pub(crate) fn first_from<'a, T: Ord>(s: &'a BTreeSet<T>, b: &T) -> (r: Option<&'a T>)
    requires
        total_order::<T>(),
    ensures
        match r {
            None => from(s@, *b).is_empty(),
            Some(x) => least(from(s@, *b), *x),
        },
{
    s.range::<T, (Bound<&T>, Bound<&T>)>((Bound::Included(b), Bound::Unbounded)).next()
}

} // verus!
