//! Conway's Game of Life on an unbounded plane, kept as a set of independent
//! rectangular groups of cells that move, grow, split and merge.
pub mod groups;
pub mod patterns;
