//! Degrees of separation among movies.
//!
//! A directed graph is built from movie and rating records: one node per
//! movie in a windowed subsequence of the movie list, one edge per retained
//! rating whose endpoints are valid node positions, with at most one edge
//! per ordered (source, target) pair. Shortest paths between node positions
//! are found by breadth-first search with parent-pointer reconstruction,
//! treating every edge as unit cost.

pub mod builder;
pub mod graph;
pub mod paths;
pub mod records;
