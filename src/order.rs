//! The order on elements, and the sets of elements that a cursor has left.
use core::cmp::Ordering;
use std::collections::BTreeSet;
use vstd::laws_cmp::obeys_cmp;
use vstd::laws_eq::obeys_concrete_eq;
use vstd::prelude::*;
use vstd::std_specs::btree::spec_btree_keys_iter;
use vstd::std_specs::cmp::{OrdSpec, PartialOrdSpec};
use vstd::std_specs::iter::IteratorSpec;

verus! {

/// `T` is totally ordered by its `Ord` impl, and that order calls exactly
/// the equal values `Equal`.
pub open spec fn total_order<T: Ord>() -> bool {
    obeys_cmp::<T>() && obeys_concrete_eq::<T>()
}

/// `x` comes strictly before `y`.
pub open spec fn lt<T: Ord>(x: T, y: T) -> bool {
    x.cmp_spec(&y) == Ordering::Less
}

/// `m` is the least element of `s`.
pub open spec fn least<T: Ord>(s: Set<T>, m: T) -> bool {
    s.contains(m) && forall|x: T| #[trigger] s.contains(x) ==> !lt(x, m)
}

/// `m` is the greatest element of `s`.
pub open spec fn greatest<T: Ord>(s: Set<T>, m: T) -> bool {
    s.contains(m) && forall|x: T| #[trigger] s.contains(x) ==> !lt(m, x)
}

/// The elements of `s` strictly after `b`.
pub open spec fn above<T: Ord>(s: Set<T>, b: T) -> Set<T> {
    s.filter(|x: T| lt(b, x))
}

/// The elements of `s` at `b` or after it.
pub open spec fn from<T: Ord>(s: Set<T>, b: T) -> Set<T> {
    s.filter(|x: T| !lt(x, b))
}

/// The bounds of `a` and `b` alone settle what they have in common: one of
/// them is empty, or their ranges share at most one end point.
pub open spec fn bounds_settle<T: Ord>(a: Set<T>, b: Set<T>) -> bool {
    a.is_empty() || b.is_empty() || exists|a_min: T, a_max: T, b_min: T, b_max: T|
        #![trigger least(a, a_min), greatest(a, a_max), least(b, b_min), greatest(b, b_max)]
        least(a, a_min) && greatest(a, a_max) && least(b, b_min) && greatest(b, b_max) && (!lt(
            a_min,
            b_max,
        ) || !lt(b_min, a_max))
}

/// The size of the smaller of `a` and `b`.
pub open spec fn min_len<T>(a: Set<T>, b: Set<T>) -> nat {
    if a.len() <= b.len() {
        a.len()
    } else {
        b.len()
    }
}

/// Every element of `s` comes strictly before its successor.
pub open spec fn ascending<T: Ord>(s: Seq<T>) -> bool {
    forall|i: int, j: int| 0 <= i < j < s.len() ==> lt(#[trigger] s[i], #[trigger] s[j])
}

/// The elements that lie in exactly one of `a` and `b`.
pub open spec fn sym_diff<T>(a: Set<T>, b: Set<T>) -> Set<T> {
    a.difference(b).union(b.difference(a))
}

/// What a total order means for `lt`: irreflexive, total on distinct values,
/// transitive, and the meaning of each answer of `cmp`.
pub proof fn lemma_total_order<T: Ord>()
    requires
        total_order::<T>(),
    ensures
        T::obeys_cmp_spec(),
        forall|x: T, y: T| #[trigger] x.cmp_spec(&y) == Ordering::Equal <==> x == y,
        forall|x: T, y: T| #[trigger] x.cmp_spec(&y) == Ordering::Greater <==> lt(y, x),
        forall|x: T, y: T| #[trigger] lt(x, y) ==> !lt(y, x) && x != y,
        forall|x: T, y: T| x != y ==> lt(x, y) || #[trigger] lt(y, x),
        forall|x: T, y: T, z: T| #[trigger] lt(x, y) && #[trigger] lt(y, z) ==> lt(x, z),
{
    reveal(vstd::laws_cmp::obeys_cmp_partial_ord);
    reveal(vstd::laws_cmp::obeys_cmp_ord);
    reveal(vstd::laws_cmp::obeys_partial_cmp_spec_properties);
    reveal(vstd::laws_eq::obeys_concrete_eq);
    assert forall|x: T, y: T| #[trigger] x.cmp_spec(&y) == Ordering::Equal <==> x == y by {
        assert(x.partial_cmp_spec(&y) == Some(x.cmp_spec(&y)));
    }
    assert forall|x: T, y: T| #[trigger] x.cmp_spec(&y) == Ordering::Greater <==> lt(y, x) by {
        assert(x.partial_cmp_spec(&y) == Some(x.cmp_spec(&y)));
        assert(y.partial_cmp_spec(&x) == Some(y.cmp_spec(&x)));
    }
    assert forall|x: T, y: T| #[trigger] lt(x, y) implies !lt(y, x) && x != y by {
        assert(x.partial_cmp_spec(&y) == Some(x.cmp_spec(&y)));
        assert(y.partial_cmp_spec(&x) == Some(y.cmp_spec(&x)));
    }
    assert forall|x: T, y: T| x != y implies lt(x, y) || #[trigger] lt(y, x) by {
        assert(x.partial_cmp_spec(&y) == Some(x.cmp_spec(&y)));
        assert(y.partial_cmp_spec(&x) == Some(y.cmp_spec(&x)));
    }
    assert forall|x: T, y: T, z: T| #[trigger] lt(x, y) && #[trigger] lt(y, z) implies lt(x, z) by {
        assert(x.partial_cmp_spec(&y) == Some(x.cmp_spec(&y)));
        assert(y.partial_cmp_spec(&z) == Some(y.cmp_spec(&z)));
        assert(x.partial_cmp_spec(&z) == Some(x.cmp_spec(&z)));
    }
}

/// A set has at most one least and one greatest element.
pub proof fn lemma_bounds_unique<T: Ord>(s: Set<T>, x: T, y: T)
    requires
        total_order::<T>(),
    ensures
        least(s, x) && least(s, y) ==> x == y,
        greatest(s, x) && greatest(s, y) ==> x == y,
{
    lemma_total_order::<T>();
}

/// Given the bounds of two non-empty sets, whether those bounds settle
/// what the sets have in common.
pub proof fn lemma_bounds_settle<T: Ord>(a: Set<T>, b: Set<T>, a_min: T, a_max: T, b_min: T, b_max: T)
    requires
        total_order::<T>(),
        least(a, a_min),
        greatest(a, a_max),
        least(b, b_min),
        greatest(b, b_max),
    ensures
        bounds_settle(a, b) <==> (!lt(a_min, b_max) || !lt(b_min, a_max)),
{
    assert(a.contains(a_min) && b.contains(b_min));
    if bounds_settle(a, b) {
        let (w, x, y, z) = choose|w: T, x: T, y: T, z: T|
            #![trigger least(a, w), greatest(a, x), least(b, y), greatest(b, z)]
            least(a, w) && greatest(a, x) && least(b, y) && greatest(b, z) && (!lt(w, z) || !lt(y, x));
        lemma_bounds_unique(a, w, a_min);
        lemma_bounds_unique(a, x, a_max);
        lemma_bounds_unique(b, y, b_min);
        lemma_bounds_unique(b, z, b_max);
    }
}

/// A `BTreeSet` holds finitely many elements.
pub proof fn lemma_tree_finite<T>(s: &BTreeSet<T>)
    ensures
        s@.finite(),
{
    let q = spec_btree_keys_iter(s).remaining().unref();
    assert(q.to_set() == s@);
    vstd::seq_lib::seq_to_set_is_finite(q);
}

} // verus!
