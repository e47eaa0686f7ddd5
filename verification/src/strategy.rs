//! The common contract of the four step strategies.

use crate::solver::{column_view, complete_solution, safe_placement, Configuration, Solver};
use vstd::prelude::*;

verus! {

/// Immutable parameters a strategy is constructed from.
#[derive(Clone, Copy)]
pub struct StrategyParameters {
    /// Stop producing further batches once the first solution has been
    /// found.  The Count-Only strategy then also stops driving the engine.
    pub stop_after_first_solution: bool,
}

/// A policy for how many engine steps make one batch of work, and which
/// intermediate configurations are surfaced.  A caller loops: while
/// `has_next_batch` holds, it drains the batch with `next_step` until that
/// returns `None`, and may pause in between.
pub trait Strategy: Sized {
    /// Whether this strategy was asked to stop batching once a solution
    /// exists.
    spec fn stop_after_first(&self) -> bool;

    fn new(params: StrategyParameters) -> (s: Self)
        ensures
            s.stop_after_first() == params.stop_after_first_solution,
    ;

    /// Resets the per-batch state; there is a further batch unless the
    /// engine is exhausted or a solution exists and the strategy was asked
    /// to stop at the first one.
    fn has_next_batch(&mut self, solver: &mut Solver) -> (more: bool)
        requires
            old(solver).wf(),
        ensures
            *final(solver) == *old(solver),
            final(self).stop_after_first() == old(self).stop_after_first(),
            more == (!(old(self).stop_after_first() && old(solver).solutions() > 0) && !old(solver).done()),
    ;

    /// Advance within the current batch; `None` once the batch is over.
    /// Whatever the policy, a surfaced configuration is one the engine just
    /// committed: a safe partial placement, flagged as a valid solution
    /// exactly when it fills the board.
    fn next_step(&mut self, solver: &mut Solver) -> (step: Option<Configuration>)
        requires
            old(solver).wf(),
        ensures
            final(solver).wf(),
            final(solver).size() == old(solver).size(),
            final(solver).solutions() >= old(solver).solutions(),
            old(solver).done() ==> final(solver).done() && final(solver).solutions() == old(solver).solutions(),
            final(self).stop_after_first() == old(self).stop_after_first(),
            step matches Some(c) ==> {
                &&& column_view(c.configuration@) == final(solver).committed()
                &&& 1 <= c.configuration@.len() <= old(solver).size()
                &&& safe_placement(column_view(c.configuration@), old(solver).size())
                &&& (c.is_valid <==> c.configuration@.len() == old(solver).size())
                &&& (c.is_valid ==> complete_solution(
                    column_view(c.configuration@),
                    old(solver).size(),
                ))
            },
    ;
}

} // verus!
