//! A directed/undirected graph over named vertices, with neighbour lookup,
//! stack- and queue-driven walks, and exhaustive enumeration of the simple
//! paths between two vertices under a small/big-cave revisit rule.

pub mod graph;
pub mod search;
pub mod vertex;
