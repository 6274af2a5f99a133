//! An undirected weighted graph with edge contraction and traversal.
//!
//! Vertices are `i32` identifiers and edge weights are `i128` values. The
//! adjacency structure keeps insertion order, so that positional access and
//! iteration are deterministic.
//!
//! - [`graph`]: the graph and its structural operations.
//! - [`contraction`]: the cost of contracting an edge, the contraction, and
//!   sequences of contractions.
//! - [`algo`]: breadth-first and depth-first traversal.
//! - [`io`]: the edge-list text format.
//! - [`model`] and [`model_proofs`]: what a graph is mathematically, the
//!   effect of each operation on it, and the proofs about those effects.
//! - [`store`] and [`sample`]: the ordered collections and the random source
//!   that the graph is built on.

pub mod algo;
pub mod contraction;
pub mod error;
pub mod graph;
pub mod io;
pub mod model;
pub mod model_proofs;
pub mod sample;
pub mod store;
