//! Lazy, ascending set operations on two `BTreeSet`s, each with a choice of
//! strategies: a joint scan, a search of the smaller set in the larger, a
//! switch from one to the other mid-way, and seeking ahead.
//!
//! Every cursor's view is the set of elements it has still to produce; its
//! constructor fixes that set (the intersection, difference, symmetric
//! difference or union of the two inputs), and each call of `next` hands out
//! the least of them and drops it, or answers `None` for good once none is
//! left. Where the inputs' least and greatest elements already settle an
//! intersection or a difference, the cursor answers without walking either
//! set.
mod cursor;
mod difference;
mod intersection;
mod laws;
mod merge;
mod order;
mod peeking;
mod scan;
mod swivel;
mod switch;
mod tree;

pub use cursor::{collect_ascending, values, AscendingCursor};
pub use difference::{difference_future, is_subset_future, Difference};
pub use intersection::{intersection_future, intersection_search, intersection_stitch, Intersection};
pub use laws::{
    lemma_apart_bounds, lemma_ascending_distinct, lemma_ascending_unique, lemma_strategies_agree,
    lemma_subset_iff_empty_difference, lemma_touching_bounds,
};
pub use merge::{symmdiff_future, union_future, SymmetricDifference, Union};
pub use swivel::{intersection_swivel, IntersectionSwivel};
pub use switch::{intersection_switch, IntersectionSwitch};
pub use order::{ascending, bounds_settle, greatest, least, lt, min_len, sym_diff, total_order};

use vstd::prelude::*;

verus! {

/// The size ratio at which looking up the elements of the smaller set in the
/// larger one beats walking both: the one knob that tunes every strategy
/// choice here. Sizes are divided by it, never multiplied, so nothing can
/// overflow, and as a power of two the division is a shift.
pub const ITER_PERFORMANCE_TIPPING_SIZE_DIFF: usize = 16;

} // verus!
