//! Incremental generation of a perfect maze (a spanning tree over a
//! rectangular grid graph), at most one wall-carve per call of `run`, so
//! that a host can animate the construction tick by tick.

pub mod block;
pub mod constants;
pub mod graph;
pub mod grid;
pub mod maze;
mod rng;
pub mod utils;
