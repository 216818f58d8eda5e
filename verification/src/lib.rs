//! A graph-based approximate nearest-neighbour index over fixed-precision
//! vectors: a degree-bounded navigation graph, greedy best-first search with
//! exact re-ranking, incremental insert/delete with lazy consolidation, and a
//! product-quantization codebook for cheap candidate scoring.

pub mod builder;
pub mod codebook;
pub mod dist;
pub mod graph;
pub mod index;
pub mod laws;
pub mod mutate;
pub mod search;
pub mod store;
