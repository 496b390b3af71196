use lau_numerical_pde::boundary::{
    apply_boundary_2d, apply_edges_1d, apply_plan_2d, edge_rule, pad_1d, pad_2d, plan_2d, Axis,
};
use lau_numerical_pde::{BoundaryKind, BoundaryKinds2D, EdgeRule, Side};

fn kinds(x_low: BoundaryKind, x_high: BoundaryKind, y_low: BoundaryKind, y_high: BoundaryKind) -> BoundaryKinds2D {
    BoundaryKinds2D { x_low, x_high, y_low, y_high }
}

/// Dirichlet value by edge: distinct per axis and side so that tests see
/// which edge wrote a cell.
fn fixed(a: Axis, s: Side) -> i64 {
    match (a, s) {
        (Axis::X, Side::Low) => -1,
        (Axis::X, Side::High) => -2,
        (Axis::Y, Side::Low) => -3,
        (Axis::Y, Side::High) => -4,
    }
}

/// Neumann edge from its neighbour: the spacing times the flux is 10 on x
/// and 100 on y.
fn flux(a: Axis, _s: Side, x: i64, add: bool) -> i64 {
    let step = match a {
        Axis::X => 10,
        Axis::Y => 100,
    };
    if add { x + step } else { x - step }
}

fn grid(rows: usize, cols: usize) -> Vec<Vec<i64>> {
    (0..rows).map(|r| (0..cols).map(|c| (10 * r + c) as i64 + 1000).collect()).collect()
}

fn all_kinds() -> Vec<BoundaryKind> {
    vec![BoundaryKind::Dirichlet, BoundaryKind::Neumann, BoundaryKind::Periodic]
}

#[test]
fn edges_1d_dirichlet_neumann_periodic() {
    let u = vec![5i64, 6, 7, 8, 9];
    let mut d = u.clone();
    apply_edges_1d(&mut d, edge_rule(BoundaryKind::Dirichlet, Side::Low, 5), edge_rule(BoundaryKind::Dirichlet, Side::High, 5), fixed, flux);
    assert_eq!(d, vec![-1, 6, 7, 8, -2]);
    let mut n = u.clone();
    apply_edges_1d(&mut n, edge_rule(BoundaryKind::Neumann, Side::Low, 5), edge_rule(BoundaryKind::Neumann, Side::High, 5), fixed, flux);
    assert_eq!(n, vec![-4, 6, 7, 8, 18]);
    let mut p = u.clone();
    apply_edges_1d(&mut p, edge_rule(BoundaryKind::Periodic, Side::Low, 5), edge_rule(BoundaryKind::Periodic, Side::High, 5), fixed, flux);
    assert_eq!(p, vec![8, 6, 7, 8, 6]);
}

#[test]
fn edges_1d_settle_after_one_application() {
    for low in all_kinds() {
        for high in all_kinds() {
            let mut once = vec![3i64, 1, 4, 1, 5, 9];
            let (l, h) = (edge_rule(low, Side::Low, 6), edge_rule(high, Side::High, 6));
            apply_edges_1d(&mut once, l, h, fixed, flux);
            let mut twice = once.clone();
            apply_edges_1d(&mut twice, l, h, fixed, flux);
            assert_eq!(twice, once);
        }
    }
}

#[test]
fn dirichlet_ring_takes_the_y_values_at_the_corners() {
    let d = BoundaryKind::Dirichlet;
    let mut g = grid(3, 4);
    apply_boundary_2d(&mut g, 4, false, kinds(d, d, d, d), fixed, flux);
    assert_eq!(g, vec![vec![-3, -3, -3, -3], vec![-1, 1011, 1012, -2], vec![-4, -4, -4, -4]]);
}

#[test]
fn periodic_ring_copies_the_opposite_inner_cells() {
    let p = BoundaryKind::Periodic;
    let mut g = grid(4, 4);
    apply_boundary_2d(&mut g, 4, false, kinds(p, p, p, p), fixed, flux);
    // x pass: column 0 copies column 2, column 3 copies column 1; then the
    // y pass: row 0 copies row 2, row 3 copies row 1.
    assert_eq!(
        g,
        vec![
            vec![1022, 1021, 1022, 1021],
            vec![1012, 1011, 1012, 1011],
            vec![1022, 1021, 1022, 1021],
            vec![1012, 1011, 1012, 1011],
        ]
    );
}

#[test]
fn plan_executor_follows_the_plan_order() {
    let n = BoundaryKind::Neumann;
    let mut g = grid(3, 3);
    let plan = plan_2d(3, 3, false, kinds(n, n, n, n));
    apply_plan_2d(&mut g, 3, &plan, fixed, flux);
    // Corners come from the y pass, which reads the middle row after the x
    // pass set its ends.
    assert_eq!(g, vec![vec![901, 911, 921], vec![1001, 1011, 1021], vec![1101, 1111, 1121]]);
}

#[test]
fn cells_beyond_the_plan_columns_are_kept() {
    let d = BoundaryKind::Dirichlet;
    let mut g = grid(3, 5);
    apply_boundary_2d(&mut g, 3, false, kinds(d, d, d, d), fixed, flux);
    assert_eq!(g[0], vec![-3, -3, -3, 1003, 1004]);
    assert_eq!(g[1], vec![-1, 1011, -2, 1013, 1014]);
}

#[test]
fn padded_and_in_place_updates_agree() {
    for x_low in all_kinds() {
        for x_high in all_kinds() {
            for y_low in all_kinds() {
                for y_high in all_kinds() {
                    let k = kinds(x_low, x_high, y_low, y_high);
                    for (rows, cols) in [(3usize, 3usize), (4, 5), (6, 3)] {
                        let mut padded = grid(rows, cols);
                        let mut in_place = grid(rows, cols);
                        apply_boundary_2d(&mut padded, cols, true, k, fixed, flux);
                        apply_boundary_2d(&mut in_place, cols, false, k, fixed, flux);
                        assert_eq!(padded, in_place);
                    }
                }
            }
        }
    }
}

#[test]
fn padded_and_in_place_updates_differ_on_two_rows() {
    let n = BoundaryKind::Neumann;
    let d = BoundaryKind::Dirichlet;
    let mut padded = grid(2, 3);
    let mut in_place = grid(2, 3);
    apply_boundary_2d(&mut padded, 3, true, kinds(d, d, n, d), fixed, flux);
    apply_boundary_2d(&mut in_place, 3, false, kinds(d, d, n, d), fixed, flux);
    assert_ne!(padded, in_place);
}

/// The value `rule` gives a cell of `line`, at the `side` end of `axis`.
fn rule_value(rule: EdgeRule, line: &[i64], axis: Axis, side: Side) -> i64 {
    match rule {
        EdgeRule::Fixed => fixed(axis, side),
        EdgeRule::Flux { from, add } => flux(axis, side, line[from], add),
        EdgeRule::Wrap { from } => line[from],
    }
}

#[test]
fn boundary_rules_hold_on_the_updated_grid() {
    for x_low in all_kinds() {
        for x_high in all_kinds() {
            for y_low in all_kinds() {
                for y_high in all_kinds() {
                    let k = kinds(x_low, x_high, y_low, y_high);
                    for (rows, cols) in [(3usize, 3usize), (4, 5), (5, 3)] {
                        let mut h = grid(rows, cols);
                        apply_boundary_2d(&mut h, cols, false, k, fixed, flux);
                        for j in 0..cols {
                            let column: Vec<i64> = h.iter().map(|row| row[j]).collect();
                            assert_eq!(h[0][j], rule_value(edge_rule(y_low, Side::Low, rows), &column, Axis::Y, Side::Low));
                            assert_eq!(h[rows - 1][j], rule_value(edge_rule(y_high, Side::High, rows), &column, Axis::Y, Side::High));
                        }
                        for r in 1..rows - 1 {
                            assert_eq!(h[r][0], rule_value(edge_rule(x_low, Side::Low, cols), &h[r], Axis::X, Side::Low));
                            assert_eq!(h[r][cols - 1], rule_value(edge_rule(x_high, Side::High, cols), &h[r], Axis::X, Side::High));
                        }
                    }
                }
            }
        }
    }
}

#[test]
fn padding_adds_a_ring_of_ghost_cells() {
    assert_eq!(pad_1d(&vec![4i64, 5, 6], 0), vec![0, 4, 5, 6, 0]);
    assert_eq!(pad_1d(&Vec::<i64>::new(), 9), vec![9, 9]);
    let u = vec![vec![1i64, 2, 99], vec![3, 4]];
    assert_eq!(
        pad_2d(&u, 2, 0),
        vec![vec![0, 0, 0, 0], vec![0, 1, 2, 0], vec![0, 3, 4, 0], vec![0, 0, 0, 0]]
    );
}

#[test]
fn padded_grid_update_matches_the_in_place_update_of_the_padded_grid() {
    let u: Vec<Vec<i64>> = (0..3).map(|r| (0..4).map(|c| 10 * r + c).collect()).collect();
    for x_low in all_kinds() {
        for y_high in all_kinds() {
            let k = kinds(x_low, BoundaryKind::Neumann, BoundaryKind::Periodic, y_high);
            let mut ringed = pad_2d(&u, 4, 0);
            let mut in_place = pad_2d(&u, 4, 0);
            apply_boundary_2d(&mut ringed, 6, true, k, fixed, flux);
            apply_boundary_2d(&mut in_place, 6, false, k, fixed, flux);
            assert_eq!(ringed, in_place);
            for r in 0..3 {
                for c in 0..4 {
                    assert_eq!(ringed[r + 1][c + 1], u[r][c]);
                }
            }
        }
    }
}

#[test]
fn cells_off_the_ring_keep_their_values() {
    for x_low in all_kinds() {
        for y_low in all_kinds() {
            let k = kinds(x_low, BoundaryKind::Periodic, y_low, BoundaryKind::Neumann);
            let before = grid(5, 6);
            let mut after = before.clone();
            apply_boundary_2d(&mut after, 4, false, k, fixed, flux);
            for r in 0..5 {
                for c in 0..6 {
                    let on_ring = c < 4 && (r == 0 || r == 4 || c == 0 || c == 3);
                    if !on_ring {
                        assert_eq!(after[r][c], before[r][c]);
                    }
                }
            }
        }
    }
}
