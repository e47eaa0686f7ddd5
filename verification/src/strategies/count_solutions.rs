//! The Count-Only policy: every step is discarded, only the engine's
//! solution counter is observable.

use crate::solver::{Configuration, Solver};
use crate::strategy::{Strategy, StrategyParameters};
use vstd::prelude::*;

verus! {

/// Drives the engine without surfacing any step.  Without the early-stop
/// flag it runs the whole remaining search space in one batch; with it, it
/// stops driving the engine as soon as one solution exists.
pub struct CountSolutions {
    params: StrategyParameters,
}

impl Strategy for CountSolutions {
    closed spec fn stop_after_first(&self) -> bool {
        self.params.stop_after_first_solution
    }

    fn new(params: StrategyParameters) -> (s: Self) {
        Self { params }
    }

    fn has_next_batch(&mut self, solver: &mut Solver) -> (more: bool) {
        !(self.params.stop_after_first_solution && solver.solutions_found() > 0)
            && !solver.is_finished()
    }

    #[verifier::loop_isolation(false)]
    fn next_step(&mut self, solver: &mut Solver) -> (step: Option<Configuration>)
        ensures
            step is None,
            !old(self).stop_after_first() ==> final(solver).done(),
            old(self).stop_after_first() ==> final(solver).done() || final(solver).solutions() > 0,
            old(self).stop_after_first() && old(solver).solutions() == 0 ==> final(solver).solutions() <= 1,
            old(self).stop_after_first() && old(solver).solutions() == 0 && !final(solver).done()
                ==> final(solver).solutions() == 1,
    {
        loop
            invariant
                solver.wf(),
                solver.size() == old(solver).size(),
                solver.solutions() >= old(solver).solutions(),
                old(solver).done() ==> solver.done() && solver.solutions() == old(solver).solutions(),
                old(self).stop_after_first() && old(solver).solutions() == 0 ==> solver.solutions()
                    <= 1,
            decreases solver.measure(),
        {
            if self.params.stop_after_first_solution && solver.solutions_found() > 0 {
                return None;
            }
            match solver.search() {
                None => { return None; },
                Some(_) => {},
            }
        }
    }
}

} // verus!
