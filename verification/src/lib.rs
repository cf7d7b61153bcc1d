//! An in-memory weighted undirected graph with a verified shortest-path query.
//!
//! The graph keeps a node table and an adjacency table. Every inserted edge is
//! stored in both directions. The query runs Dijkstra's algorithm over a binary
//! min-heap and is proved to return the least total weight of any walk between
//! the two nodes, capped at `i32::MAX`, which doubles as "no path".

pub mod frontier;
pub mod graph;
pub mod laws;
pub mod search;
pub mod walk;

pub use graph::{Edge, Graph, Node};
