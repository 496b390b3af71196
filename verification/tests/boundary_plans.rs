use lau_numerical_pde::boundary::{edge_rule, plan_2d, Axis};
use lau_numerical_pde::{BoundaryKind, BoundaryKinds2D, CellUpdate, EdgeRule, Side};

fn kinds(x_low: BoundaryKind, x_high: BoundaryKind, y_low: BoundaryKind, y_high: BoundaryKind) -> BoundaryKinds2D {
    BoundaryKinds2D { x_low, x_high, y_low, y_high }
}

#[test]
fn dirichlet_edges_are_fixed() {
    assert_eq!(edge_rule(BoundaryKind::Dirichlet, Side::Low, 7), EdgeRule::Fixed);
    assert_eq!(edge_rule(BoundaryKind::Dirichlet, Side::High, 7), EdgeRule::Fixed);
    assert_eq!(edge_rule(BoundaryKind::Dirichlet, Side::High, 1), EdgeRule::Fixed);
}

#[test]
fn neumann_edges_read_inner_neighbour() {
    assert_eq!(edge_rule(BoundaryKind::Neumann, Side::Low, 7), EdgeRule::Flux { from: 1, add: false });
    assert_eq!(edge_rule(BoundaryKind::Neumann, Side::High, 7), EdgeRule::Flux { from: 5, add: true });
}

#[test]
fn periodic_edges_wrap_around() {
    assert_eq!(edge_rule(BoundaryKind::Periodic, Side::Low, 7), EdgeRule::Wrap { from: 5 });
    assert_eq!(edge_rule(BoundaryKind::Periodic, Side::High, 7), EdgeRule::Wrap { from: 1 });
    assert_eq!(edge_rule(BoundaryKind::Periodic, Side::Low, 2), EdgeRule::Wrap { from: 0 });
}

#[test]
fn in_place_plan_of_three_by_four_grid() {
    let k = kinds(BoundaryKind::Dirichlet, BoundaryKind::Neumann, BoundaryKind::Periodic, BoundaryKind::Dirichlet);
    let plan = plan_2d(3, 4, false, k);
    assert_eq!(plan.len(), 2 * 3 + 2 * 4);
    assert_eq!(plan[0], CellUpdate { row: 0, col: 0, axis: Axis::X, side: Side::Low, rule: EdgeRule::Fixed });
    assert_eq!(
        plan[1],
        CellUpdate { row: 0, col: 3, axis: Axis::X, side: Side::High, rule: EdgeRule::Flux { from: 2, add: true } }
    );
    assert_eq!(plan[4].row, 2);
    assert_eq!(plan[6], CellUpdate { row: 0, col: 0, axis: Axis::Y, side: Side::Low, rule: EdgeRule::Wrap { from: 1 } });
    assert_eq!(plan[7], CellUpdate { row: 2, col: 0, axis: Axis::Y, side: Side::High, rule: EdgeRule::Fixed });
    assert_eq!(plan[13], CellUpdate { row: 2, col: 3, axis: Axis::Y, side: Side::High, rule: EdgeRule::Fixed });
}

#[test]
fn plan_sets_every_ring_cell_and_nothing_inside() {
    for &inner in &[false, true] {
        let rows = 5;
        let cols = 6;
        let plan = plan_2d(rows, cols, inner, kinds(BoundaryKind::Neumann, BoundaryKind::Periodic, BoundaryKind::Neumann, BoundaryKind::Periodic));
        let mut hit = vec![vec![false; cols]; rows];
        for u in &plan {
            assert!(u.row == 0 || u.row == rows - 1 || u.col == 0 || u.col == cols - 1);
            hit[u.row][u.col] = true;
        }
        for r in 0..rows {
            for c in 0..cols {
                let ring = r == 0 || r == rows - 1 || c == 0 || c == cols - 1;
                assert_eq!(hit[r][c], ring);
            }
        }
    }
}

#[test]
fn padded_plan_leaves_corner_rows_to_y_pass() {
    let plan = plan_2d(4, 5, true, kinds(BoundaryKind::Dirichlet, BoundaryKind::Dirichlet, BoundaryKind::Dirichlet, BoundaryKind::Dirichlet));
    assert_eq!(plan.len(), 2 * 2 + 2 * 5);
    assert_eq!(plan[0].row, 1);
    assert_eq!(plan[2].row, 2);
    assert!(plan[..4].iter().all(|u| u.axis == Axis::X));
    assert!(plan[4..].iter().all(|u| u.axis == Axis::Y));
}

#[test]
fn y_updates_follow_all_x_updates() {
    let plan = plan_2d(4, 3, false, kinds(BoundaryKind::Periodic, BoundaryKind::Periodic, BoundaryKind::Dirichlet, BoundaryKind::Neumann));
    let first_y = plan.iter().position(|u| u.axis == Axis::Y).unwrap();
    assert_eq!(first_y, 8);
    assert!(plan[first_y..].iter().all(|u| u.axis == Axis::Y));
    // the last update of a corner comes from the y pass
    let last_corner = plan.iter().rposition(|u| u.row == 0 && u.col == 0).unwrap();
    assert_eq!(plan[last_corner].axis, Axis::Y);
}

#[test]
fn one_row_dirichlet_grid() {
    let plan = plan_2d(1, 1, false, kinds(BoundaryKind::Dirichlet, BoundaryKind::Dirichlet, BoundaryKind::Dirichlet, BoundaryKind::Dirichlet));
    assert_eq!(plan.len(), 4);
    assert!(plan.iter().all(|u| u.row == 0 && u.col == 0 && u.rule == EdgeRule::Fixed));
}
