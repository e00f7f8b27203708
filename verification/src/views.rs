use vstd::prelude::*;

verus! {

/// The plain values of the elements of `s`, in order.
pub open spec fn views<T: View>(s: Seq<T>) -> Seq<T::V> {
    s.map_values(|x: T| x@)
}

/// Removing the first element of a sequence removes the first plain value.
pub proof fn lemma_views_remove_first<T: View>(before: Seq<T>, after: Seq<T>)
    requires
        before.len() > 0,
        after == before.remove(0),
    ensures
        views(after) == views(before).drop_first(),
        views(before)[0] == before[0]@,
{
    assert(views(after) =~= views(before).drop_first()) by {
        assert forall|m: int| 0 <= m < after.len() implies #[trigger] views(after)[m] == views(before).drop_first()[m] by {
            assert(after[m] == before[m + 1]);
        }
    }
}

} // verus!
