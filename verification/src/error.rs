//! The ways in which an operation on a graph can fail.

use vstd::prelude::*;

verus! {

/// Why an operation on a graph did not go through.
#[derive(Clone, Copy, Debug, PartialEq, Eq, Structural)]
pub enum GraphError {
    /// The two vertices are not joined by an edge.
    EdgeNotFound,
    /// The vertex is not in the graph.
    VertexNotFound,
    /// There is nothing to pick from.
    EmptyGraph,
    /// A line of an edge list is not three decimal numbers.
    MalformedEdgeLine,
    /// A total cost does not fit the weight type.
    CostOverflow,
}

} // verus!
