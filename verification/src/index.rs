use vstd::prelude::*;

use crate::point::{Point, PointView};
use crate::query::{Query, QueryResult, QueryResultView, QueryView};
use crate::rank::result_views;

verus! {

/// The points of `s` all have vectors of length `len`.
pub open spec fn uniform_length(s: Seq<PointView>, len: nat) -> bool {
    forall|i: int| 0 <= i < s.len() ==> #[trigger] s[i].vector.len() == len
}

/// A similarity index over the points of one collection.
///
/// The library decides which points go into an index and ranks what a
/// search returns. Of an implementation it assumes, without proof, what
/// these contracts state: an index holds the points inserted into it, in
/// insertion order; a search answers with the candidates
/// `candidates(query)`, which depend on nothing but the index and the
/// query; and no method panics on an input that meets its `requires`. How
/// the candidates are found is the implementation's own.
pub trait Index: Sized {
    /// The points inserted into the index so far, in insertion order.
    ///
    /// An implementation checked by Verus defines it. One built outside
    /// Verus cannot; for it this body is a placeholder, and the contracts
    /// below are what the library assumes of it.
    closed spec fn inserted(&self) -> Seq<PointView> {
        arbitrary()
    }

    /// The candidates that a search with `query` answers.
    ///
    /// An implementation checked by Verus defines it. One built outside
    /// Verus cannot; for it this body is a placeholder, and the contract of
    /// `scroll` is what the library assumes of it.
    closed spec fn candidates(&self, query: QueryView) -> Seq<QueryResultView> {
        arbitrary()
    }

    /// A new index that holds no point.
    fn default() -> (r: Self)
        ensures
            r.inserted() == Seq::<PointView>::empty();

    /// How many points the index holds.
    fn len(&self) -> (r: usize)
        ensures
            r == self.inserted().len();

    /// Adds `point` to the points the index searches. The index compares
    /// vectors of one length only.
    fn insert(&mut self, point: Point)
        requires
            uniform_length(old(self).inserted(), point.vector@.len()),
        ensures
            final(self).inserted() == old(self).inserted().push(point@);

    /// The `query.k` candidate neighbours of `query` among the points
    /// inserted so far, each one of those points. The index must hold at
    /// least `query.k` points, all with vectors of the query's length.
    fn scroll(&self, query: &Query) -> (r: Vec<QueryResult>)
        requires
            query.k <= self.inserted().len(),
            query.k <= usize::MAX / 2,
            uniform_length(self.inserted(), query.vector@.len()),
        ensures
            result_views(r@) == self.candidates(query@),
            self.candidates(query@).len() == query.k,
            forall|i: int| 0 <= i < query.k ==> self.inserted().contains(#[trigger] self.candidates(query@)[i].point);
}

} // verus!
