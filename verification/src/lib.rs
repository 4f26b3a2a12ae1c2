//! A wave-function-collapse style grid solver: each cell of a rectangular
//! grid holds a domain of candidate categories; repeated solver steps collapse
//! one minimum-entropy cell at a time and propagate adjacency constraints to
//! its axis-aligned neighbors.

pub mod category;
pub mod grid;
pub mod laws;
pub mod solver;
