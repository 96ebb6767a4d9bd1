//! Co-change graph builder: infers which files of a project tend to change
//! together from the file lists of its change-sets, and accumulates that
//! co-occurrence into a weighted, undirected graph.
pub mod edge;
pub mod registry;
pub mod graph;
pub mod snapshot;
pub mod builder;
