//! What every cursor here has in common, and draining one into a `Vec`.
use crate::laws::lemma_ascending_distinct;
use crate::order::{ascending, least, lemma_total_order, lt, total_order};
use vstd::prelude::*;

verus! {

broadcast use vstd::set_lib::group_set_properties;

/// The values behind a sequence of references.
pub open spec fn values<T>(v: Seq<&T>) -> Seq<T> {
    v.map_values(|x: &T| *x)
}

/// A lazy producer of a finite set's elements, least first.
pub trait AscendingCursor<'a, T: Ord>: Sized {
    /// The elements still to be produced.
    spec fn remaining(&self) -> Set<T>;

    /// The cursor's own invariant.
    spec fn valid(&self) -> bool;

    proof fn lemma_valid(&self)
        requires
            self.valid(),
        ensures
            total_order::<T>(),
            self.remaining().finite(),
    ;

    /// Produces the least element still to come, or `None` once there is
    /// none, and keeps answering `None` from then on.
    fn advance(&mut self) -> (r: Option<&'a T>)
        requires
            old(self).valid(),
        ensures
            final(self).valid(),
            old(self).remaining().is_empty() ==> r is None && final(self).remaining().is_empty(),
            match r {
                None => old(self).remaining().is_empty() && final(self).remaining() == old(self).remaining(),
                Some(x) => least(old(self).remaining(), *x) && final(self).remaining() == old(self).remaining().remove(*x),
            },
    ;
}

/// Everything that `cursor` still has to produce, in the order produced:
/// strictly ascending, and exactly the elements it had left.
pub fn collect_ascending<'a, T: Ord, C: AscendingCursor<'a, T>>(cursor: C) -> (r: Vec<&'a T>)
    requires
        cursor.valid(),
    ensures
        ascending(values(r@)),
        values(r@).no_duplicates(),
        values(r@).to_set() == cursor.remaining(),
        r@.len() == cursor.remaining().len(),
{
    let ghost all = cursor.remaining();
    let mut c = cursor;
    let mut out: Vec<&'a T> = Vec::new();
    proof {
        assert(values(out@).to_set() =~= Set::empty());
    }
    loop
        invariant
            c.valid(),
            all == cursor.remaining(),
            ascending(values(out@)),
            values(out@).to_set().union(c.remaining()) == all,
            values(out@).to_set().disjoint(c.remaining()),
            forall|i: int, y: T| 0 <= i < out@.len() && #[trigger] c.remaining().contains(y) ==> lt(#[trigger] values(out@)[i], y),
        decreases c.remaining().len(),
    {
        proof {
            c.lemma_valid();
            lemma_total_order::<T>();
        }
        let ghost (before, rest) = (out@, c.remaining());
        match c.advance() {
            None => {
                proof {
                    lemma_ascending_distinct(values(out@));
                    values(out@).unique_seq_to_set();
                }
                assert(values(out@).to_set() =~= all);
                return out;
            },
            Some(x) => {
                out.push(x);
                proof {
                    assert(values(out@) =~= values(before).push(*x));
                    assert forall|i: int, j: int| 0 <= i < j < values(out@).len() implies lt(
                        #[trigger] values(out@)[i],
                        #[trigger] values(out@)[j],
                    ) by {
                        if j == values(before).len() {
                            assert(rest.contains(*x));
                            assert(lt(values(before)[i], *x));
                        } else {
                            assert(lt(values(before)[i], values(before)[j]));
                        }
                    }
                    assert forall|i: int, y: T| 0 <= i < out@.len() && #[trigger] c.remaining().contains(y)
                        implies lt(#[trigger] values(out@)[i], y) by {
                        assert(rest.contains(y) && y != *x && !lt(y, *x));
                        if i < before.len() {
                            assert(values(out@)[i] == values(before)[i]);
                        }
                    }
                    values(before).lemma_push_to_set_commute(*x);
                    assert(values(out@).to_set() =~= values(before).to_set().insert(*x));
                    assert(values(out@).to_set().union(c.remaining()) =~= all);
                    assert(values(out@).to_set().disjoint(c.remaining()));
                }
            },
        }
    }
}

} // verus!
