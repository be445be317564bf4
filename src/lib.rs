//! Extracts modules shared by several chunks of a chunk graph into new,
//! size-balanced chunks, so that each of them is compiled and shipped once.

pub mod model;
pub mod chunk_graph;
pub mod order;
pub mod grouping;
pub mod batches;
pub mod rewrite;
pub mod plugin;
