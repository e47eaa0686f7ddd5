//! The Each-Solution-With-Partial-Steps policy: a batch runs from one
//! emission up to and including the next complete solution.

use crate::solver::{search_step, Configuration, Solver};
use crate::strategy::{Strategy, StrategyParameters};
use vstd::prelude::*;

verus! {

/// Forwards every engine step as-is, but ends the batch as soon as a step
/// reports a complete solution.
pub struct EachSolutionPartialSteps {
    batch_ended: bool,
    params: StrategyParameters,
}

impl EachSolutionPartialSteps {
    /// Whether the current batch already reached a complete solution.
    pub closed spec fn batch_spent(&self) -> bool {
        self.batch_ended
    }
}

impl Strategy for EachSolutionPartialSteps {
    closed spec fn stop_after_first(&self) -> bool {
        self.params.stop_after_first_solution
    }

    fn new(params: StrategyParameters) -> (s: Self)
        ensures
            !s.batch_spent(),
    {
        Self { batch_ended: false, params }
    }

    fn has_next_batch(&mut self, solver: &mut Solver) -> (more: bool)
        ensures
            !final(self).batch_spent(),
    {
        self.batch_ended = false;
        !(self.params.stop_after_first_solution && solver.solutions_found() > 0)
            && !solver.is_finished()
    }

    fn next_step(&mut self, solver: &mut Solver) -> (step: Option<Configuration>)
        ensures
            !old(self).batch_spent() ==> {
                &&& search_step(*old(solver), *final(solver), step)
                &&& (final(self).batch_spent() <==> (step matches Some(c) && c.is_valid))
            },
            old(self).batch_spent() ==> step is None && *final(solver) == *old(solver),
    {
        if self.batch_ended {
            return None;
        }
        let result = solver.search();
        match result {
            Some(config) => {
                if config.is_valid {
                    self.batch_ended = true;
                }
                Some(config)
            },
            None => None,
        }
    }
}

} // verus!
