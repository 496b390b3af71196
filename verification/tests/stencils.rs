use lau_numerical_pde::advection::upwind_stencil;
use lau_numerical_pde::finite_diff::interior_count;
use lau_numerical_pde::{FiniteDiff, Stencil};

fn pairs(s: &Stencil) -> Vec<(usize, i64)> {
    s.terms.iter().map(|t| (t.index, t.weight)).collect()
}

fn moment(s: &Stencil, center: usize, k: u32) -> i64 {
    s.terms.iter().map(|t| t.weight * (t.index as i64 - center as i64).pow(k)).sum()
}

#[test]
fn interior_counts() {
    assert_eq!(interior_count(11), 9);
    assert_eq!(interior_count(2), 0);
    assert_eq!(interior_count(1), 0);
    assert_eq!(interior_count(0), 0);
}

#[test]
fn central_first_difference_stencils() {
    let s = FiniteDiff::d1_central_stencil(5, 2);
    assert_eq!(pairs(&s), vec![(3, 1), (1, -1)]);
    assert_eq!((s.divisor, s.order), (2, 1));
    let s = FiniteDiff::d1_central_stencil(5, 0);
    assert_eq!(pairs(&s), vec![(1, 1), (0, -1)]);
    assert_eq!(s.divisor, 1);
    let s = FiniteDiff::d1_central_stencil(5, 4);
    assert_eq!(pairs(&s), vec![(4, 1), (3, -1)]);
    assert_eq!(s.divisor, 1);
}

#[test]
fn one_sided_first_difference_stencils() {
    assert_eq!(pairs(&FiniteDiff::d1_forward_stencil(4, 1)), vec![(2, 1), (1, -1)]);
    assert_eq!(pairs(&FiniteDiff::d1_forward_stencil(4, 3)), vec![(3, 1), (2, -1)]);
    assert_eq!(pairs(&FiniteDiff::d1_backward_stencil(4, 2)), vec![(2, 1), (1, -1)]);
    assert_eq!(pairs(&FiniteDiff::d1_backward_stencil(4, 0)), vec![(1, 1), (0, -1)]);
}

#[test]
fn second_difference_stencils() {
    let s = FiniteDiff::d2_central_stencil(6, 3);
    assert_eq!(pairs(&s), vec![(4, 1), (3, -2), (2, 1)]);
    assert_eq!((s.divisor, s.order), (1, 2));
    assert!(FiniteDiff::d2_central_stencil(6, 0).terms.is_empty());
    assert!(FiniteDiff::d2_central_stencil(6, 5).terms.is_empty());
}

#[test]
fn fourth_order_second_difference_stencils() {
    let s = FiniteDiff::d2_central_4th_stencil(7, 3);
    assert_eq!(pairs(&s), vec![(5, -1), (4, 16), (3, -30), (2, 16), (1, -1)]);
    assert_eq!((s.divisor, s.order), (12, 2));
    assert!(FiniteDiff::d2_central_4th_stencil(7, 1).terms.is_empty());
    assert!(FiniteDiff::d2_central_4th_stencil(7, 5).terms.is_empty());
}

#[test]
fn stencil_moments_give_their_order_of_accuracy() {
    for i in 0..6 {
        let s = FiniteDiff::d1_central_stencil(6, i);
        assert_eq!(moment(&s, i, 0), 0);
        assert_eq!(moment(&s, i, 1), s.divisor as i64);
    }
    let s = FiniteDiff::d1_central_stencil(6, 3);
    assert_eq!(moment(&s, 3, 2), 0);
    let s = FiniteDiff::d2_central_stencil(6, 2);
    assert_eq!([0, 1, 2, 3].map(|k| moment(&s, 2, k)), [0, 0, 2, 0]);
    let s = FiniteDiff::d2_central_4th_stencil(9, 4);
    assert_eq!([0, 1, 2, 3, 4, 5].map(|k| moment(&s, 4, k)), [0, 0, 24, 0, 0, 0]);
}

#[test]
fn second_difference_of_sampled_quadratic() {
    // u(k) = 3k^2 + 5k + 7: the second difference is 2 * 3 at every interior point
    let u: Vec<i64> = (0..8).map(|k| 3 * k * k + 5 * k + 7).collect();
    for i in 1..7 {
        let s = FiniteDiff::d2_central_stencil(8, i);
        let v: i64 = s.terms.iter().map(|t| t.weight * u[t.index]).sum();
        assert_eq!(v, 6);
    }
}

#[test]
fn upwind_reads_against_the_flow() {
    let s = upwind_stencil(5, 2, true);
    assert_eq!(pairs(&s), vec![(2, 1), (1, -1)]);
    let s = upwind_stencil(5, 2, false);
    assert_eq!(pairs(&s), vec![(3, 1), (2, -1)]);
    assert_eq!((s.divisor, s.order), (1, 1));
}

#[test]
fn fourth_order_difference_of_sampled_quartic() {
    // u(k) = k^4, u''(k) = 12 k^2: the stencil returns 12 * u''(i) exactly
    let u: Vec<i64> = (0..10).map(|k: i64| k.pow(4)).collect();
    for i in 2..8 {
        let s = FiniteDiff::d2_central_4th_stencil(10, i);
        let v: i64 = s.terms.iter().map(|t| t.weight * u[t.index]).sum();
        assert_eq!(v, 12 * 12 * (i as i64).pow(2));
    }
}

#[test]
fn first_differences_of_sampled_line() {
    // u(k) = 3k + 2: every first-difference stencil returns its divisor times 3
    let u: Vec<i64> = (0..6).map(|k| 3 * k + 2).collect();
    for i in 0..6 {
        for s in [
            FiniteDiff::d1_central_stencil(6, i),
            FiniteDiff::d1_forward_stencil(6, i),
            FiniteDiff::d1_backward_stencil(6, i),
        ] {
            let v: i64 = s.terms.iter().map(|t| t.weight * u[t.index]).sum();
            assert_eq!(v, 3 * s.divisor as i64);
        }
    }
}

#[test]
fn interior_second_differences_cancel_for_wrapped_or_mirrored_ends() {
    let interior = [4i64, -1, 7, 3, 9, 0];
    let n = interior.len() + 2;
    // periodic ghosts: u[0] = u[n-2], u[n-1] = u[1]
    let mut periodic = vec![interior[interior.len() - 1]];
    periodic.extend_from_slice(&interior);
    periodic.push(interior[0]);
    // zero-flux ghosts: u[0] = u[1], u[n-1] = u[n-2]
    let mut mirrored = vec![interior[0]];
    mirrored.extend_from_slice(&interior);
    mirrored.push(interior[interior.len() - 1]);
    for u in [periodic, mirrored] {
        let total: i64 = (1..n - 1)
            .map(|i| FiniteDiff::d2_central_stencil(n, i).terms.iter().map(|t| t.weight * u[t.index]).sum::<i64>())
            .sum();
        assert_eq!(total, 0);
    }
    // with fixed (Dirichlet) ends the total is the net boundary flux instead
    let mut fixed = vec![10i64];
    fixed.extend_from_slice(&interior);
    fixed.push(0);
    let total: i64 = (1..n - 1)
        .map(|i| FiniteDiff::d2_central_stencil(n, i).terms.iter().map(|t| t.weight * fixed[t.index]).sum::<i64>())
        .sum();
    assert_eq!(total, (fixed[n - 1] - fixed[n - 2]) - (fixed[1] - fixed[0]));
}
