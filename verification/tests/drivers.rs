use lau_numerical_pde::{evolve, evolve_two_level, iterate_until};

#[test]
fn evolve_keeps_every_state() {
    let h = evolve(1u64, 4, |x: &u64| x * 3);
    assert_eq!(h, vec![1, 3, 9, 27, 81]);
}

#[test]
fn evolve_without_steps_keeps_initial_state() {
    let h = evolve(vec![1.5, 2.5], 0, |v: &Vec<f64>| v.iter().map(|x| x * 2.0).collect());
    assert_eq!(h, vec![vec![1.5, 2.5]]);
}

#[test]
fn two_level_scheme_runs_from_two_states() {
    let h = evolve_two_level(0u64, 1u64, 6, |a: &u64, b: &u64| a + b);
    assert_eq!(h, vec![0, 1, 1, 2, 3, 5, 8]);
}

#[test]
fn two_level_scheme_without_steps_keeps_both_states() {
    assert_eq!(evolve_two_level(4i32, 7i32, 0, |a: &i32, b: &i32| a - b), vec![4, 7]);
    assert_eq!(evolve_two_level(4i32, 7i32, 1, |a: &i32, b: &i32| a - b), vec![4, 7]);
    assert_eq!(evolve_two_level(4i32, 7i32, 2, |a: &i32, b: &i32| a - b), vec![4, 7, -3]);
}

#[test]
fn iteration_stops_at_first_passing_test() {
    let out = iterate_until(100u32, 50, |x: u32| x / 2, |x: &u32| *x < 10);
    assert!(out.converged);
    assert_eq!(out.iterations, 4);
    assert_eq!(out.state, 6);
}

#[test]
fn iteration_gives_up_after_max_sweeps() {
    let out = iterate_until(100u32, 3, |x: u32| x / 2, |x: &u32| *x < 10);
    assert!(!out.converged);
    assert_eq!(out.iterations, 3);
    assert_eq!(out.state, 12);
}

#[test]
fn iteration_without_sweeps_returns_initial_state() {
    let out = iterate_until(5u32, 0, |x: u32| x + 1, |_x: &u32| true);
    assert!(!out.converged);
    assert_eq!(out.iterations, 0);
    assert_eq!(out.state, 5);
}

#[test]
fn convergence_test_is_not_applied_to_initial_state() {
    let out = iterate_until(0u32, 10, |x: u32| x + 1, |x: &u32| *x == 0 || *x == 3);
    assert!(out.converged);
    assert_eq!(out.iterations, 3);
}

#[test]
fn budget_at_or_above_the_converging_count_changes_nothing() {
    let run = |budget: usize| iterate_until(100u32, budget, |x: u32| x / 2, |x: &u32| *x < 10);
    let first = run(50);
    assert!(first.converged);
    assert_eq!(first.iterations, 4);
    for budget in [4usize, 5, 9, 1000] {
        let again = run(budget);
        assert!(again.converged);
        assert_eq!(again.iterations, first.iterations);
        assert_eq!(again.state, first.state);
    }
    for budget in 0usize..4 {
        let short = run(budget);
        assert!(!short.converged);
        assert_eq!(short.iterations, budget);
    }
}
