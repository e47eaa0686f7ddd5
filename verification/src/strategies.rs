//! The four batching policies over the search engine.

pub mod count_solutions;
pub mod each_partial_step;
pub mod each_solution;
pub mod each_solution_partial_steps;
