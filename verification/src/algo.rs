//! Algorithms on graphs.

pub mod search;
