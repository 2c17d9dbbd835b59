//! Fixed-length simple paths in undirected graphs.
//!
//! Given a graph, a start vertex, an end vertex and a target length `L`
//! (counted in vertices), the crate searches for a simple path that starts at
//! `start`, ends at `end`, visits exactly `L` distinct vertices and uses only
//! existing edges.  Two independent strategies are provided so that their
//! behaviour can be compared on the same inputs: a deviation search in the
//! style of Yen's loopless-path enumeration, and a pruned depth-first
//! backtracking search.

pub mod backtrack;
pub mod bfs;
pub mod deviation;
pub mod graph;
pub mod laws;
pub mod order;
pub mod paths;
pub mod rng;
