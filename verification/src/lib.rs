//! Incremental N-queens search.
//!
//! The solver enumerates placements of N non-attacking queens on an N x N
//! board by explicit-stack backtracking, one placement attempt (or chained
//! backtrack) per call, so a caller can suspend and resume the search between
//! steps.  The strategies wrap the solver and decide how many solver steps
//! make up one batch of work, and which intermediate configurations are
//! surfaced to the caller.

pub mod driver;
pub mod drivers;
pub mod measure;
pub mod solver;
pub mod strategies;
pub mod strategy;
