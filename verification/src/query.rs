use vstd::prelude::*;

use crate::payload::Payload;
use crate::point::{Point, PointView};

verus! {

/// A nearest-neighbour request: the vector to search around (coordinates
/// as IEEE-754 binary64 bit patterns), a payload, and how many results
/// to return.
#[derive(Clone, Debug)]
pub struct Query {
    pub vector: Vec<u64>,
    pub payload: Payload,
    pub k: usize,
}

/// What a query holds, as plain values.
pub struct QueryView {
    pub vector: Seq<u64>,
    pub payload: Map<Seq<char>, Seq<char>>,
    pub k: usize,
}

impl View for Query {
    type V = QueryView;

    open spec fn view(&self) -> QueryView {
        QueryView { vector: self.vector@, payload: self.payload@, k: self.k }
    }
}

/// One candidate of a search: a stored point and its distance to the query.
///
/// The distance is the IEEE-754 binary64 bit pattern of the cosine
/// distance, as the index reports it.
#[derive(Clone, Debug)]
pub struct QueryResult {
    pub point: Point,
    pub distance: u64,
}

/// What a search candidate holds, as plain values.
pub struct QueryResultView {
    pub point: PointView,
    pub distance: u64,
}

impl View for QueryResult {
    type V = QueryResultView;

    open spec fn view(&self) -> QueryResultView {
        QueryResultView { point: self.point@, distance: self.distance }
    }
}

} // verus!
