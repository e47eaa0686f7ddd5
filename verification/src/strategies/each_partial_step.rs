//! The All-Steps policy: one engine step per batch.

use crate::solver::{search_step, Configuration, Solver};
use crate::strategy::{Strategy, StrategyParameters};
use vstd::prelude::*;

verus! {

/// Surfaces every single engine step, then hands control back.
pub struct EachPartialStep {
    in_batch: bool,
    params: StrategyParameters,
}

impl EachPartialStep {
    /// Whether the single step of the current batch was already taken.
    pub closed spec fn batch_spent(&self) -> bool {
        self.in_batch
    }
}

impl Strategy for EachPartialStep {
    closed spec fn stop_after_first(&self) -> bool {
        self.params.stop_after_first_solution
    }

    fn new(params: StrategyParameters) -> (s: Self)
        ensures
            !s.batch_spent(),
    {
        Self { in_batch: false, params }
    }

    fn has_next_batch(&mut self, solver: &mut Solver) -> (more: bool)
        ensures
            !final(self).batch_spent(),
    {
        self.in_batch = false;
        !(self.params.stop_after_first_solution && solver.solutions_found() > 0)
            && !solver.is_finished()
    }

    fn next_step(&mut self, solver: &mut Solver) -> (step: Option<Configuration>)
        ensures
            !old(self).batch_spent() ==> {
                &&& search_step(*old(solver), *final(solver), step)
                &&& final(self).batch_spent()
            },
            old(self).batch_spent() ==> step is None && *final(solver) == *old(solver),
    {
        if !self.in_batch {
            self.in_batch = true;
            solver.search()
        } else {
            None
        }
    }
}

} // verus!
