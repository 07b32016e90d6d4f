//! Shortest paths on an eight-connected grid with the A* search.
//!
//! [`node`] holds the per-cell record and the octile cost model, [`grid`] the
//! cell collection, its editing operations and the search itself, and
//! [`laws`] the properties proved of them.

pub mod grid;
pub mod laws;
pub mod node;
