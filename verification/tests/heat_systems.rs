use lau_numerical_pde::boundary::{apply_edges_1d, edge_rule, Axis};
use lau_numerical_pde::heat::{boundary_loads, system_matrix, Load, LoadTerm};
use lau_numerical_pde::{BoundaryKind, HeatMethod, Side};

#[test]
fn forward_euler_needs_the_explicit_bound() {
    assert!(HeatMethod::ForwardEuler.is_stable_given(true));
    assert!(!HeatMethod::ForwardEuler.is_stable_given(false));
}

#[test]
fn implicit_methods_are_always_stable() {
    assert!(HeatMethod::BackwardEuler.is_stable_given(false));
    assert!(HeatMethod::CrankNicolson.is_stable_given(false));
}

#[test]
fn dirichlet_operator_is_tridiagonal() {
    let m = system_matrix(4, BoundaryKind::Dirichlet, BoundaryKind::Dirichlet);
    assert_eq!(m, vec![vec![-2, 1, 0, 0], vec![1, -2, 1, 0], vec![0, 1, -2, 1], vec![0, 0, 1, -2]]);
}

#[test]
fn neumann_operator_reflects_into_the_diagonal() {
    let m = system_matrix(4, BoundaryKind::Neumann, BoundaryKind::Neumann);
    assert_eq!(m, vec![vec![-1, 1, 0, 0], vec![1, -2, 1, 0], vec![0, 1, -2, 1], vec![0, 0, 1, -1]]);
}

#[test]
fn periodic_operator_wraps_corners() {
    let m = system_matrix(4, BoundaryKind::Periodic, BoundaryKind::Periodic);
    assert_eq!(m, vec![vec![-2, 1, 0, 1], vec![1, -2, 1, 0], vec![0, 1, -2, 1], vec![1, 0, 1, -2]]);
}

#[test]
fn small_systems_add_up_every_contribution() {
    assert_eq!(system_matrix(1, BoundaryKind::Neumann, BoundaryKind::Periodic), vec![vec![0]]);
    assert_eq!(system_matrix(1, BoundaryKind::Dirichlet, BoundaryKind::Dirichlet), vec![vec![-2]]);
    assert_eq!(system_matrix(2, BoundaryKind::Periodic, BoundaryKind::Periodic), vec![vec![-2, 2], vec![2, -2]]);
}

#[test]
fn rows_sum_to_minus_the_adjacent_dirichlet_count() {
    for ni in 1..6 {
        for (l, r) in [
            (BoundaryKind::Dirichlet, BoundaryKind::Neumann),
            (BoundaryKind::Periodic, BoundaryKind::Periodic),
            (BoundaryKind::Neumann, BoundaryKind::Dirichlet),
            (BoundaryKind::Dirichlet, BoundaryKind::Dirichlet),
        ] {
            let m = system_matrix(ni, l, r);
            for i in 0..ni {
                let expected = -((i == 0 && l == BoundaryKind::Dirichlet) as i64)
                    - ((i == ni - 1 && r == BoundaryKind::Dirichlet) as i64);
                assert_eq!(m[i].iter().sum::<i64>(), expected);
            }
        }
    }
}

#[test]
fn symmetric_when_periodicity_agrees() {
    let m = system_matrix(6, BoundaryKind::Neumann, BoundaryKind::Dirichlet);
    for i in 0..6 {
        for j in 0..6 {
            assert_eq!(m[i][j], m[j][i]);
        }
    }
    let m = system_matrix(6, BoundaryKind::Periodic, BoundaryKind::Dirichlet);
    assert_ne!(m[0][5], m[5][0]);
}

#[test]
fn loads_follow_boundary_kinds() {
    assert_eq!(
        boundary_loads(5, BoundaryKind::Dirichlet, BoundaryKind::Neumann),
        vec![Load { index: 0, term: LoadTerm::LeftValue }, Load { index: 4, term: LoadTerm::RightFlux }]
    );
    assert_eq!(boundary_loads(5, BoundaryKind::Periodic, BoundaryKind::Periodic), vec![]);
    assert_eq!(
        boundary_loads(1, BoundaryKind::Neumann, BoundaryKind::Dirichlet),
        vec![Load { index: 0, term: LoadTerm::LeftFlux }, Load { index: 0, term: LoadTerm::RightValue }]
    );
}

#[test]
fn operator_plus_loads_is_the_second_difference_after_the_edge_rules() {
    // integer stand-ins: values vl, vr and spacing-times-flux hl, hr
    let (vl, hl, vr, hr) = (7i64, 3i64, -5i64, 2i64);
    let kinds = [BoundaryKind::Dirichlet, BoundaryKind::Neumann, BoundaryKind::Periodic];
    for ni in 1..5usize {
        for &l in &kinds {
            for &r in &kinds {
                let mut u: Vec<i64> = (0..ni + 2).map(|k| (k * k) as i64 + 1).collect();
                let n = u.len();
                apply_edges_1d(
                    &mut u,
                    edge_rule(l, Side::Low, n),
                    edge_rule(r, Side::High, n),
                    |_a: Axis, s: Side| if s == Side::Low { vl } else { vr },
                    |_a: Axis, s: Side, x: i64, add: bool| {
                        let h = if s == Side::Low { hl } else { hr };
                        if add { x + h } else { x - h }
                    },
                );
                let m = system_matrix(ni, l, r);
                for i in 0..ni {
                    let stencil = u[i + 2] - 2 * u[i + 1] + u[i];
                    let row: i64 = (0..ni).map(|j| m[i][j] * u[j + 1]).sum();
                    let loads: i64 = boundary_loads(ni, l, r)
                        .iter()
                        .filter(|ld| ld.index == i)
                        .map(|ld| match ld.term {
                            LoadTerm::LeftValue => vl,
                            LoadTerm::LeftFlux => -hl,
                            LoadTerm::RightValue => vr,
                            LoadTerm::RightFlux => hr,
                        })
                        .sum();
                    assert_eq!(stencil, row + loads);
                }
            }
        }
    }
}

#[test]
fn closed_ends_conserve_mass() {
    let u = [7i64, -3, 12, 0, 5, 9, -8];
    for ni in 1..=u.len() {
        for kind in [BoundaryKind::Periodic, BoundaryKind::Neumann] {
            let m = system_matrix(ni, kind, kind);
            let total: i64 = (0..ni).map(|i| (0..ni).map(|j| m[i][j] * u[j]).sum::<i64>()).sum();
            assert_eq!(total, 0);
        }
    }
    let m = system_matrix(4, BoundaryKind::Dirichlet, BoundaryKind::Neumann);
    let total: i64 = (0..4).map(|i| (0..4).map(|j| m[i][j] * u[j]).sum::<i64>()).sum();
    assert_eq!(total, -u[0]);
}

#[test]
fn neumann_ghost_is_neighbour_minus_flux_at_the_left_end() {
    // Ghost u[0] = u[1] - hl: the second difference at the first interior
    // point is u[2] - u[1] - hl, so the left flux load carries minus hl.
    let (hl, hr) = (3i64, 2i64);
    let mut u = vec![0i64, 10, 14, 0];
    apply_edges_1d(
        &mut u,
        edge_rule(BoundaryKind::Neumann, Side::Low, 4),
        edge_rule(BoundaryKind::Neumann, Side::High, 4),
        |_a: Axis, _s: Side| 0,
        |_a: Axis, s: Side, x: i64, add: bool| {
            let h = if s == Side::Low { hl } else { hr };
            if add { x + h } else { x - h }
        },
    );
    assert_eq!(u, vec![7, 10, 14, 16]);
    let m = system_matrix(2, BoundaryKind::Neumann, BoundaryKind::Neumann);
    assert_eq!(u[2] - 2 * u[1] + u[0], m[0][0] * u[1] + m[0][1] * u[2] - hl);
    assert_eq!(u[3] - 2 * u[2] + u[1], m[1][0] * u[1] + m[1][1] * u[2] + hr);
}
