use n_queens::solver::Solver;
use n_queens::strategies::count_solutions::CountSolutions;
use n_queens::strategies::each_partial_step::EachPartialStep;
use n_queens::strategies::each_solution::EachSolution;
use n_queens::strategies::each_solution_partial_steps::EachSolutionPartialSteps;
use n_queens::strategy::{Strategy, StrategyParameters};

fn params(stop_after_first_solution: bool) -> StrategyParameters {
    StrategyParameters { stop_after_first_solution }
}

fn drive<S: Strategy>(mut strategy: S, solver: &mut Solver) -> Vec<(Vec<usize>, bool)> {
    let mut out = Vec::new();
    while strategy.has_next_batch(solver) {
        while let Some(config) = strategy.next_step(solver) {
            out.push((config.configuration, config.is_valid));
        }
    }
    out
}

#[test]
fn all_steps_first_two_solutions_for_four_queens() {
    let mut solver = Solver::new(4);
    let steps = drive(EachPartialStep::new(params(false)), &mut solver);
    let solutions: Vec<&Vec<usize>> =
        steps.iter().filter(|(_, valid)| *valid).map(|(cols, _)| cols).collect();
    assert_eq!(solutions.len(), 2);
    assert_eq!(*solutions[0], vec![1, 3, 0, 2]);
    assert_eq!(*solutions[1], vec![2, 0, 3, 1]);
    assert_eq!(solver.solutions_found(), 2);
    assert!(solver.is_finished());
}

#[test]
fn all_steps_yields_one_step_per_batch() {
    let mut solver = Solver::new(4);
    let mut strategy = EachPartialStep::new(params(false));
    assert!(strategy.has_next_batch(&mut solver));
    assert!(strategy.next_step(&mut solver).is_some());
    assert!(strategy.next_step(&mut solver).is_none());
    assert!(strategy.next_step(&mut solver).is_none());
    assert!(strategy.has_next_batch(&mut solver));
    assert!(strategy.next_step(&mut solver).is_some());
}

#[test]
fn all_steps_stops_batching_after_first_solution_when_asked() {
    let mut solver = Solver::new(4);
    let steps = drive(EachPartialStep::new(params(true)), &mut solver);
    assert_eq!(solver.solutions_found(), 1);
    assert!(!solver.is_finished());
    let last = steps.last().expect("the run surfaced steps");
    assert!(last.1);
    assert_eq!(last.0, vec![1, 3, 0, 2]);
}

#[test]
fn solutions_with_steps_ends_each_batch_at_a_solution() {
    let mut solver = Solver::new(4);
    let mut strategy = EachSolutionPartialSteps::new(params(false));
    assert!(strategy.has_next_batch(&mut solver));
    let mut batch = Vec::new();
    while let Some(config) = strategy.next_step(&mut solver) {
        batch.push(config);
    }
    let last = batch.last().expect("the first batch surfaces steps");
    assert!(last.is_valid);
    assert_eq!(last.configuration, vec![1, 3, 0, 2]);
    for config in &batch[..batch.len() - 1] {
        assert!(!config.is_valid);
    }
    assert_eq!(solver.solutions_found(), 1);
}

#[test]
fn solutions_with_steps_surfaces_every_step_over_a_full_run() {
    let mut reference = Solver::new(5);
    let mut expected = Vec::new();
    while let Some(config) = reference.search() {
        expected.push((config.configuration, config.is_valid));
    }
    let mut solver = Solver::new(5);
    let steps = drive(EachSolutionPartialSteps::new(params(false)), &mut solver);
    assert_eq!(steps, expected);
}

#[test]
fn only_solutions_suppresses_partial_steps() {
    let mut solver = Solver::new(6);
    let steps = drive(EachSolution::new(params(false)), &mut solver);
    assert_eq!(steps.len(), 4);
    for (cols, valid) in &steps {
        assert!(*valid);
        assert_eq!(cols.len(), 6);
    }
    assert_eq!(solver.solutions_found(), 4);
    assert!(solver.is_finished());
}

#[test]
fn only_solutions_returns_none_once_per_exhausted_batch() {
    let mut solver = Solver::new(3);
    let mut strategy = EachSolution::new(params(false));
    assert!(strategy.has_next_batch(&mut solver));
    assert!(strategy.next_step(&mut solver).is_none());
    assert!(solver.is_finished());
    assert!(!strategy.has_next_batch(&mut solver));
    assert_eq!(solver.solutions_found(), 0);
}

#[test]
fn count_only_reaches_the_full_count_without_the_flag() {
    let mut solver = Solver::new(8);
    let steps = drive(CountSolutions::new(params(false)), &mut solver);
    assert!(steps.is_empty());
    assert_eq!(solver.solutions_found(), 92);
    assert!(solver.is_finished());
}

#[test]
fn count_only_with_early_stop_counts_exactly_one() {
    let mut solver = Solver::new(8);
    let mut strategy = CountSolutions::new(params(true));
    assert!(strategy.has_next_batch(&mut solver));
    assert!(strategy.next_step(&mut solver).is_none());
    assert_eq!(solver.solutions_found(), 1);
    assert!(!solver.is_finished());
    assert!(!strategy.has_next_batch(&mut solver));
}

#[test]
fn strategies_agree_on_the_solution_count() {
    let mut with_steps = Solver::new(6);
    drive(EachSolutionPartialSteps::new(params(false)), &mut with_steps);
    let mut only_count = Solver::new(6);
    drive(CountSolutions::new(params(false)), &mut only_count);
    assert_eq!(with_steps.solutions_found(), only_count.solutions_found());
}
