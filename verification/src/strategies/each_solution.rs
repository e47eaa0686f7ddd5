//! The Each-Solution-Only policy: partial steps are suppressed.

use crate::solver::{next_count, Configuration, Solver};
use crate::strategy::{Strategy, StrategyParameters};
use vstd::prelude::*;

verus! {

/// Drives the engine in a tight loop, discarding every non-solution step,
/// until a complete solution is produced or the engine exhausts; at most one
/// surfaced configuration per batch.
pub struct EachSolution {
    in_batch: bool,
    params: StrategyParameters,
}

impl EachSolution {
    /// Whether the single solution of the current batch was already sought.
    pub closed spec fn batch_spent(&self) -> bool {
        self.in_batch
    }
}

impl Strategy for EachSolution {
    closed spec fn stop_after_first(&self) -> bool {
        self.params.stop_after_first_solution
    }

    fn new(params: StrategyParameters) -> (s: Self)
        ensures
            !s.batch_spent(),
    {
        Self { in_batch: false, params }
    }

    fn has_next_batch(&mut self, solver: &mut Solver) -> (more: bool)
        ensures
            !final(self).batch_spent(),
    {
        self.in_batch = false;
        !(self.params.stop_after_first_solution && solver.solutions_found() > 0)
            && !solver.is_finished()
    }

    #[verifier::loop_isolation(false)]
    fn next_step(&mut self, solver: &mut Solver) -> (step: Option<Configuration>)
        ensures
            !old(self).batch_spent() ==> {
                &&& final(self).batch_spent()
                &&& (step is None ==> final(solver).done() && final(solver).solutions() == old(solver).solutions())
                &&& (step matches Some(c) ==> c.is_valid && final(solver).solutions() == next_count(
                    old(solver).solutions(),
                ))
            },
            old(self).batch_spent() ==> step is None && *final(solver) == *old(solver),
    {
        if self.in_batch {
            return None;
        }
        self.in_batch = true;
        loop
            invariant
                solver.wf(),
                solver.size() == old(solver).size(),
                solver.solutions() == old(solver).solutions(),
                old(solver).done() ==> solver.done(),
            decreases solver.measure(),
        {
            match solver.search() {
                None => { return None; },
                Some(config) => {
                    if config.is_valid {
                        return Some(config);
                    }
                },
            }
        }
    }
}

} // verus!
