//! Shortest-path costs over weighted undirected graphs, summed over all pairs of nodes.
pub mod graph;
pub mod paths;
pub mod engine;
pub mod total;
pub mod cache;
pub mod parse;
pub mod grid;
pub mod heap;
