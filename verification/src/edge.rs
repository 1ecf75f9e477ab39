//! The edges of a weighted, undirected graph.

use vstd::prelude::*;

verus! {

/// An undirected edge between two vertices, with a weight.
///
/// The order of `source` and `destination` carries no meaning.
#[derive(Clone, Copy, Debug, PartialEq, Eq, Structural)]
pub struct Edge {
    pub source: u64,
    pub destination: u64,
    pub weight: i64,
}

impl Edge {
    /// Builds the edge between `source` and `destination` with the given weight.
    pub fn new(source: u64, destination: u64, weight: i64) -> (e: Edge)
        ensures
            e == (Edge { source, destination, weight }),
    {
        Edge { source, destination, weight }
    }
}

} // verus!
