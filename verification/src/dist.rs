use vstd::prelude::*;

verus! {

/// A marker naming the metric that collections are indexed under: the
/// cosine distance, one minus the cosine similarity of two vectors. The
/// library itself computes no distance; the index implementation does,
/// and reports each distance as an IEEE-754 binary64 bit pattern.
pub struct Cosine;

} // verus!
