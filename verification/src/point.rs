use vstd::prelude::*;

use crate::payload::Payload;

verus! {

/// A stored point: its id, its vector, and its payload.
///
/// Each coordinate of `vector` is carried as the IEEE-754 binary64 bit
/// pattern of the coordinate; the library stores and hands coordinates on
/// without computing with them.
#[derive(Clone, Debug)]
pub struct Point {
    pub id: u32,
    pub vector: Vec<u64>,
    pub payload: Payload,
}

/// What a point holds, as plain values.
pub struct PointView {
    pub id: u32,
    pub vector: Seq<u64>,
    pub payload: Map<Seq<char>, Seq<char>>,
}

impl View for Point {
    type V = PointView;

    open spec fn view(&self) -> PointView {
        PointView { id: self.id, vector: self.vector@, payload: self.payload@ }
    }
}

/// A copy of the coordinate bit patterns `v`.
pub fn copy_vector(v: &Vec<u64>) -> (r: Vec<u64>)
    ensures
        r@ == v@,
{
    let mut r: Vec<u64> = Vec::new();
    let mut i: usize = 0;
    while i < v.len()
        invariant
            i <= v.len(),
            r@ == v@.take(i as int),
        decreases v.len() - i,
    {
        r.push(v[i]);
        i = i + 1;
        assert(r@ =~= v@.take(i as int));
    }
    assert(v@.take(v.len() as int) =~= v@);
    r
}

impl Point {
    /// A copy of the point with the same id, vector and payload.
    pub fn duplicate(&self) -> (r: Point)
        ensures
            r@ == self@,
    {
        Point { id: self.id, vector: copy_vector(&self.vector), payload: self.payload.duplicate() }
    }
}

/// Two points are equal when they have the same id, whatever their vectors
/// and payloads.
impl PartialEq for Point {
    fn eq(&self, other: &Self) -> (r: bool) {
        self.id == other.id
    }
}

impl vstd::std_specs::cmp::PartialEqSpecImpl for Point {
    open spec fn obeys_eq_spec() -> bool {
        true
    }

    open spec fn eq_spec(&self, other: &Point) -> bool {
        self.id == other.id
    }
}

} // verus!
