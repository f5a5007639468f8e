//! Laws that relate the operations to one another.
use crate::order::{ascending, greatest, least, lemma_total_order, lt, total_order};
use vstd::prelude::*;

verus! {

broadcast use vstd::set_lib::group_set_properties;

/// A strictly ascending sequence holds no element twice.
pub proof fn lemma_ascending_distinct<T: Ord>(s: Seq<T>)
    requires
        total_order::<T>(),
        ascending(s),
    ensures
        s.no_duplicates(),
{
    lemma_total_order::<T>();
    assert forall|i: int, j: int| 0 <= i < s.len() && 0 <= j < s.len() && i != j implies s[i] != s[j] by {
        if i < j {
            assert(lt(s[i], s[j]));
        } else {
            assert(lt(s[j], s[i]));
        }
    }
}

/// Two strictly ascending sequences with the same elements are the same
/// sequence.
pub proof fn lemma_ascending_unique<T: Ord>(s1: Seq<T>, s2: Seq<T>)
    requires
        total_order::<T>(),
        ascending(s1),
        ascending(s2),
        s1.to_set() == s2.to_set(),
    ensures
        s1 == s2,
    decreases s1.len(),
{
    lemma_total_order::<T>();
    if s1.len() == 0 {
        if s2.len() > 0 {
            assert(s2.to_set().contains(s2[0]));
        }
        assert(s1 =~= s2);
    } else {
        assert(s1.to_set().contains(s1[0]));
        assert(s2.len() > 0);
        let (x1, x2) = (s1[0], s2[0]);
        assert(s1.to_set().contains(x2));
        assert(s2.to_set().contains(x1));
        let k1 = choose|k: int| 0 <= k < s1.len() && s1[k] == x2;
        let k2 = choose|k: int| 0 <= k < s2.len() && s2[k] == x1;
        if k1 > 0 {
            assert(lt(x1, x2));
            if k2 > 0 {
                assert(lt(x2, x1));
            }
        }
        assert(x1 == x2);
        let (t1, t2) = (s1.drop_first(), s2.drop_first());
        assert forall|y: T| t1.to_set().contains(y) <==> #[trigger] t2.to_set().contains(y) by {
            if t1.to_set().contains(y) {
                let k = choose|k: int| 0 <= k < t1.len() && t1[k] == y;
                assert(s1[k + 1] == y && lt(x1, y));
                assert(s2.to_set().contains(y));
                let m = choose|m: int| 0 <= m < s2.len() && s2[m] == y;
                assert(m != 0);
                assert(t2[m - 1] == y);
            }
            if t2.to_set().contains(y) {
                let k = choose|k: int| 0 <= k < t2.len() && t2[k] == y;
                assert(s2[k + 1] == y && lt(x2, y));
                assert(s1.to_set().contains(y));
                let m = choose|m: int| 0 <= m < s1.len() && s1[m] == y;
                assert(m != 0);
                assert(t1[m - 1] == y);
            }
        }
        assert(t1.to_set() =~= t2.to_set());
        assert(ascending(t1)) by {
            assert forall|i: int, j: int| 0 <= i < j < t1.len() implies lt(#[trigger] t1[i], #[trigger] t1[j]) by {
                assert(t1[i] == s1[i + 1] && t1[j] == s1[j + 1]);
            }
        }
        assert(ascending(t2)) by {
            assert forall|i: int, j: int| 0 <= i < j < t2.len() implies lt(#[trigger] t2[i], #[trigger] t2[j]) by {
                assert(t2[i] == s2[i + 1] && t2[j] == s2[j + 1]);
            }
        }
        lemma_ascending_unique(t1, t2);
        assert forall|i: int| 0 <= i < s1.len() implies s1[i] == s2[i] by {
            if i > 0 {
                assert(s1[i] == t1[i - 1] && s2[i] == t2[i - 1]);
            }
        }
        assert(s1 =~= s2);
    }
}

/// Every strategy yields the same sequence: whatever two of them produce
/// for `a` and `b`, each strictly ascending and holding exactly the common
/// elements, is one and the same sequence.
pub proof fn lemma_strategies_agree<T: Ord>(a: Set<T>, b: Set<T>, s1: Seq<T>, s2: Seq<T>)
    requires
        total_order::<T>(),
        ascending(s1),
        s1.to_set() == a.intersect(b),
        ascending(s2),
        s2.to_set() == a.intersect(b),
    ensures
        s1 == s2,
{
    lemma_ascending_unique(s1, s2);
}

/// `a` is a subset of `b` exactly when the difference of `a` and `b` has no
/// element.
pub proof fn lemma_subset_iff_empty_difference<T>(a: Set<T>, b: Set<T>)
    ensures
        a.subset_of(b) <==> a.difference(b).is_empty(),
{
    if !a.subset_of(b) {
        let x = choose|x: T| a.contains(x) && !b.contains(x);
        assert(a.difference(b).contains(x));
    }
}

/// Where the greatest element of `a` is the least of `b`, that one element
/// is all they have in common.
pub proof fn lemma_touching_bounds<T: Ord>(a: Set<T>, b: Set<T>, m: T)
    requires
        total_order::<T>(),
        greatest(a, m),
        least(b, m),
    ensures
        a.intersect(b) == set![m],
{
    lemma_total_order::<T>();
    assert forall|y: T| #[trigger] a.intersect(b).contains(y) implies y == m by {
        assert(!lt(m, y) && !lt(y, m));
    }
    assert(a.intersect(b) =~= set![m]);
}

/// Where the greatest element of `a` comes before the least of `b`, they
/// have nothing in common.
pub proof fn lemma_apart_bounds<T: Ord>(a: Set<T>, b: Set<T>, a_max: T, b_min: T)
    requires
        total_order::<T>(),
        greatest(a, a_max),
        least(b, b_min),
        lt(a_max, b_min),
    ensures
        a.intersect(b).is_empty(),
{
    lemma_total_order::<T>();
    assert forall|y: T| !#[trigger] a.intersect(b).contains(y) by {
        if a.contains(y) && b.contains(y) {
            assert(!lt(a_max, y) && !lt(y, b_min));
        }
    }
}

} // verus!
