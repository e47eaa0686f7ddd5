use n_queens::solver::Solver;

fn drive_to_exhaustion(n: usize) -> u64 {
    let mut solver = Solver::new(n);
    while solver.search().is_some() {}
    solver.solutions_found()
}

fn collect_run(n: usize) -> Vec<(Vec<usize>, bool)> {
    let mut solver = Solver::new(n);
    let mut out = Vec::new();
    while let Some(config) = solver.search() {
        out.push((config.configuration, config.is_valid));
    }
    out
}

#[test]
fn solution_counts_match_known_values() {
    assert_eq!(drive_to_exhaustion(1), 1);
    assert_eq!(drive_to_exhaustion(2), 0);
    assert_eq!(drive_to_exhaustion(3), 0);
    assert_eq!(drive_to_exhaustion(4), 2);
    assert_eq!(drive_to_exhaustion(5), 10);
    assert_eq!(drive_to_exhaustion(6), 4);
    assert_eq!(drive_to_exhaustion(8), 92);
}

#[test]
fn zero_sized_boards_are_rejected_at_construction() {
    assert!(Solver::try_new(0).is_none());
    let mut solver = Solver::try_new(5).expect("a positive size is accepted");
    assert!(!solver.is_finished());
    assert_eq!(solver.solutions_found(), 0);
    assert!(solver.search().is_some());
}

#[test]
fn trivial_board_has_single_solution_at_column_zero() {
    let mut solver = Solver::new(1);
    let config = solver.search().expect("one step should succeed");
    assert!(config.is_valid);
    assert_eq!(config.configuration, vec![0]);
    assert!(solver.search().is_none());
    assert_eq!(solver.solutions_found(), 1);
}

#[test]
fn valid_configurations_are_complete_non_attacking_placements() {
    let n = 5usize;
    for (config, is_valid) in collect_run(n) {
        if is_valid {
            assert_eq!(config.len(), n);
            for a in 0..n {
                for b in (a + 1)..n {
                    let (ca, cb) = (config[a] as i64, config[b] as i64);
                    let (ra, rb) = (a as i64, b as i64);
                    assert_ne!(ca, cb);
                    assert_ne!(ra + ca, rb + cb);
                    assert_ne!(ra - ca, rb - cb);
                }
            }
        }
    }
}

#[test]
fn fresh_runs_emit_identical_sequences() {
    let first = collect_run(5);
    let second = collect_run(5);
    assert_eq!(first, second);
}

#[test]
fn solution_counter_counts_exactly_the_valid_steps() {
    let mut solver = Solver::new(5);
    let mut valid_seen = 0u64;
    loop {
        let before = solver.solutions_found();
        match solver.search() {
            Some(config) => {
                if config.is_valid {
                    valid_seen += 1;
                }
                assert!(solver.solutions_found() >= before);
                assert_eq!(solver.solutions_found(), valid_seen);
            },
            None => break,
        }
    }
    assert_eq!(solver.solutions_found(), 10);
    assert_eq!(valid_seen, 10);
}

#[test]
fn exhaustion_is_permanent() {
    let mut solver = Solver::new(3);
    while solver.search().is_some() {}
    assert!(solver.is_finished());
    let count = solver.solutions_found();
    for _ in 0..3 {
        assert!(solver.search().is_none());
        assert!(solver.is_finished());
        assert_eq!(solver.solutions_found(), count);
    }
}

#[test]
fn partial_steps_grow_one_row_at_a_time() {
    let mut solver = Solver::new(4);
    let first = solver.search().expect("a first placement exists");
    assert_eq!(first.configuration.len(), 1);
    assert!(!first.is_valid);
    let second = solver.search().expect("a second placement exists");
    assert!(second.configuration.len() <= 2);
    assert!(!solver.is_finished());
}
