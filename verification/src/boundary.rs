//! Boundary conditions as index rules: which cell a boundary value is taken
//! from, and in which order the boundary cells of a grid are set.

use vstd::prelude::*;
use crate::plan_laws::{column_ends_met, condition_met, lemma_plan_2d_conditions_hold, row_ends_met};

verus! {

/// The kind of condition imposed at one end of an axis.
#[derive(Clone, Copy, Debug, PartialEq, Eq, Structural)]
pub enum BoundaryKind {
    /// Fixed value at the boundary.
    Dirichlet,
    /// Fixed derivative across the boundary.
    Neumann,
    /// Values wrap around to the other end of the axis.
    Periodic,
}

/// Which end of an axis a boundary cell sits at.
#[derive(Clone, Copy, Debug, PartialEq, Eq, Structural)]
pub enum Side {
    Low,
    High,
}

/// How the boundary cell at one end of an axis is set.
#[derive(Clone, Copy, Debug, PartialEq, Eq, Structural)]
pub enum EdgeRule {
    /// The prescribed boundary value.
    Fixed,
    /// The value of cell `from`, plus (`add`) or minus the spacing times the flux.
    Flux { from: usize, add: bool },
    /// The value of cell `from`, at the other end of the axis.
    Wrap { from: usize },
}

/// A condition of this kind reads a cell other than the boundary cell.
pub open spec fn reads_neighbor(kind: BoundaryKind) -> bool {
    kind != BoundaryKind::Dirichlet
}

/// Index of the boundary cell on `side` of an axis with `len` cells.
pub open spec fn boundary_index(side: Side, len: nat) -> int {
    match side {
        Side::Low => 0,
        Side::High => len - 1,
    }
}

/// The rule for the boundary cell on `side` of an axis with `len` cells:
/// a Neumann cell is its inner neighbour minus (low end) or plus (high end)
/// the spacing times the flux, and a periodic cell copies the cell next to
/// the opposite boundary.
pub open spec fn spec_edge_rule(kind: BoundaryKind, side: Side, len: nat) -> EdgeRule {
    match kind {
        BoundaryKind::Dirichlet => EdgeRule::Fixed,
        BoundaryKind::Neumann => match side {
            Side::Low => EdgeRule::Flux { from: 1, add: false },
            Side::High => EdgeRule::Flux { from: (len - 2) as usize, add: true },
        },
        BoundaryKind::Periodic => match side {
            Side::Low => EdgeRule::Wrap { from: (len - 2) as usize },
            Side::High => EdgeRule::Wrap { from: 1 },
        },
    }
}

/// The rule for the boundary cell on `side` of an axis with `len` cells.
pub fn edge_rule(kind: BoundaryKind, side: Side, len: usize) -> (rule: EdgeRule)
    requires
        reads_neighbor(kind) ==> len >= 2,
    ensures
        rule == spec_edge_rule(kind, side, len as nat),
{
    match kind {
        BoundaryKind::Dirichlet => EdgeRule::Fixed,
        BoundaryKind::Neumann => match side {
            Side::Low => EdgeRule::Flux { from: 1, add: false },
            Side::High => EdgeRule::Flux { from: len - 2, add: true },
        },
        BoundaryKind::Periodic => match side {
            Side::Low => EdgeRule::Wrap { from: len - 2 },
            Side::High => EdgeRule::Wrap { from: 1 },
        },
    }
}

/// An edge rule reads a cell of the axis; on an axis of three or more cells
/// that cell is never the boundary cell itself, and a periodic end reads the
/// cell next to the opposite boundary.
pub proof fn lemma_edge_rule_reads_inside(kind: BoundaryKind, side: Side, len: usize)
    requires
        reads_neighbor(kind) ==> len >= 2,
    ensures
        match spec_edge_rule(kind, side, len as nat) {
            EdgeRule::Fixed => kind == BoundaryKind::Dirichlet,
            EdgeRule::Flux { from, add } => {
                &&& kind == BoundaryKind::Neumann
                &&& from < len
                &&& add == (side == Side::High)
                &&& len >= 3 ==> from != boundary_index(side, len as nat)
            },
            EdgeRule::Wrap { from } => {
                &&& kind == BoundaryKind::Periodic
                &&& from < len
                &&& len >= 3 ==> from != boundary_index(side, len as nat)
                &&& from == match side {
                    Side::Low => boundary_index(Side::High, len as nat) - 1,
                    Side::High => boundary_index(Side::Low, len as nat) + 1,
                }
            },
        },
{
}

/// An axis of a two-dimensional grid: `X` runs along a row (columns), `Y`
/// along a column (rows).
#[derive(Clone, Copy, Debug, PartialEq, Eq, Structural)]
pub enum Axis {
    X,
    Y,
}

/// The kinds of the four boundaries of a two-dimensional grid.
#[derive(Clone, Copy, Debug, PartialEq, Eq, Structural)]
pub struct BoundaryKinds2D {
    pub x_low: BoundaryKind,
    pub x_high: BoundaryKind,
    pub y_low: BoundaryKind,
    pub y_high: BoundaryKind,
}

/// One step of a boundary update on a grid: set cell (`row`, `col`), which
/// lies on the `side` end of `axis`, by `rule`.  For an `X` update the
/// `from` of the rule is a column of the same row; for a `Y` update it is a
/// row of the same column.
#[derive(Clone, Copy, Debug, PartialEq, Eq, Structural)]
pub struct CellUpdate {
    pub row: usize,
    pub col: usize,
    pub axis: Axis,
    pub side: Side,
    pub rule: EdgeRule,
}

/// The plan's demands on the grid's shape.
pub open spec fn plan_2d_shape_ok(
    rows: nat,
    cols: nat,
    inner_rows_only: bool,
    kinds: BoundaryKinds2D,
) -> bool {
    &&& rows >= 1
    &&& cols >= 1
    &&& (reads_neighbor(kinds.x_low) || reads_neighbor(kinds.x_high)) ==> cols >= 2
    &&& (reads_neighbor(kinds.y_low) || reads_neighbor(kinds.y_high)) ==> rows >= 2
    &&& inner_rows_only ==> rows >= 2
}

/// First row whose x-boundaries the plan sets.
pub open spec fn first_x_row(inner_rows_only: bool) -> nat {
    if inner_rows_only {
        1
    } else {
        0
    }
}

/// Number of rows whose x-boundaries the plan sets.
pub open spec fn x_row_count(rows: nat, inner_rows_only: bool) -> nat {
    if inner_rows_only {
        (rows - 2) as nat
    } else {
        rows
    }
}

/// Step `k` of the plan: first, row by row, the low then the high x-boundary
/// cell of each row; then, column by column, the low then the high
/// y-boundary cell of each column.
pub open spec fn spec_plan_step(
    rows: nat,
    cols: nat,
    inner_rows_only: bool,
    kinds: BoundaryKinds2D,
    k: int,
) -> CellUpdate {
    let nr = x_row_count(rows, inner_rows_only);
    if k < 2 * nr {
        let r = first_x_row(inner_rows_only) + k / 2;
        if k % 2 == 0 {
            CellUpdate {
                row: r as usize,
                col: 0,
                axis: Axis::X,
                side: Side::Low,
                rule: spec_edge_rule(kinds.x_low, Side::Low, cols),
            }
        } else {
            CellUpdate {
                row: r as usize,
                col: (cols - 1) as usize,
                axis: Axis::X,
                side: Side::High,
                rule: spec_edge_rule(kinds.x_high, Side::High, cols),
            }
        }
    } else {
        let j = (k - 2 * nr) / 2;
        if (k - 2 * nr) % 2 == 0 {
            CellUpdate {
                row: 0,
                col: j as usize,
                axis: Axis::Y,
                side: Side::Low,
                rule: spec_edge_rule(kinds.y_low, Side::Low, rows),
            }
        } else {
            CellUpdate {
                row: (rows - 1) as usize,
                col: j as usize,
                axis: Axis::Y,
                side: Side::High,
                rule: spec_edge_rule(kinds.y_high, Side::High, rows),
            }
        }
    }
}

/// The whole boundary plan of a `rows` x `cols` grid.
pub open spec fn spec_plan_2d(
    rows: nat,
    cols: nat,
    inner_rows_only: bool,
    kinds: BoundaryKinds2D,
) -> Seq<CellUpdate> {
    Seq::new(
        2 * x_row_count(rows, inner_rows_only) + 2 * cols,
        |k: int| spec_plan_step(rows, cols, inner_rows_only, kinds, k),
    )
}

/// The ordered list of boundary-cell updates for a `rows` x `cols` grid.
/// With `inner_rows_only`, the x-boundaries of the first and last rows are
/// left to the y pass (the grid then carries a ring of ghost cells around an
/// interior block).
pub fn plan_2d(rows: usize, cols: usize, inner_rows_only: bool, kinds: BoundaryKinds2D) -> (plan:
    Vec<CellUpdate>)
    requires
        plan_2d_shape_ok(rows as nat, cols as nat, inner_rows_only, kinds),
        2 * rows + 2 * cols <= usize::MAX,
    ensures
        plan@ == spec_plan_2d(rows as nat, cols as nat, inner_rows_only, kinds),
{
    let ghost g_rows = rows as nat;
    let ghost g_cols = cols as nat;
    let mut plan: Vec<CellUpdate> = Vec::new();
    let r0: usize = if inner_rows_only {
        1
    } else {
        0
    };
    let r1: usize = if inner_rows_only {
        rows - 1
    } else {
        rows
    };
    let x_low = edge_rule(kinds.x_low, Side::Low, cols);
    let x_high = edge_rule(kinds.x_high, Side::High, cols);
    let y_low = edge_rule(kinds.y_low, Side::Low, rows);
    let y_high = edge_rule(kinds.y_high, Side::High, rows);
    let mut r: usize = r0;
    while r < r1
        invariant
            r0 == first_x_row(inner_rows_only),
            r1 - r0 == x_row_count(g_rows, inner_rows_only),
            r0 <= r <= r1 <= rows,
            g_rows == rows,
            g_cols == cols,
            cols >= 1,
            x_low == spec_edge_rule(kinds.x_low, Side::Low, g_cols),
            x_high == spec_edge_rule(kinds.x_high, Side::High, g_cols),
            plan.len() == 2 * (r - r0),
            forall|k: int|
                0 <= k < plan.len() ==> plan@[k] == spec_plan_step(
                    g_rows,
                    g_cols,
                    inner_rows_only,
                    kinds,
                    k,
                ),
        decreases r1 - r,
    {
        plan.push(CellUpdate { row: r, col: 0, axis: Axis::X, side: Side::Low, rule: x_low });
        plan.push(
            CellUpdate { row: r, col: cols - 1, axis: Axis::X, side: Side::High, rule: x_high },
        );
        r += 1;
    }
    let base: usize = plan.len();
    let mut j: usize = 0;
    while j < cols
        invariant
            base == 2 * x_row_count(g_rows, inner_rows_only),
            j <= cols,
            g_rows == rows,
            g_cols == cols,
            rows >= 1,
            2 * rows + 2 * cols <= usize::MAX,
            base <= 2 * rows,
            y_low == spec_edge_rule(kinds.y_low, Side::Low, g_rows),
            y_high == spec_edge_rule(kinds.y_high, Side::High, g_rows),
            plan.len() == base + 2 * j,
            forall|k: int|
                0 <= k < plan.len() ==> plan@[k] == spec_plan_step(
                    g_rows,
                    g_cols,
                    inner_rows_only,
                    kinds,
                    k,
                ),
        decreases cols - j,
    {
        plan.push(CellUpdate { row: 0, col: j, axis: Axis::Y, side: Side::Low, rule: y_low });
        plan.push(
            CellUpdate { row: rows - 1, col: j, axis: Axis::Y, side: Side::High, rule: y_high },
        );
        j += 1;
    }
    assert(plan@ =~= spec_plan_2d(g_rows, g_cols, inner_rows_only, kinds));
    plan
}

/// Cell (`r`, `c`) lies on the outer ring of a `rows` x `cols` grid.
pub open spec fn on_boundary(rows: nat, cols: nat, r: int, c: int) -> bool {
    r == 0 || r == rows - 1 || c == 0 || c == cols - 1
}

/// The cell that an update reads, if any, lies inside the grid.
pub open spec fn reads_inside(u: CellUpdate, rows: nat, cols: nat) -> bool {
    let len = match u.axis {
        Axis::X => cols,
        Axis::Y => rows,
    };
    match u.rule {
        EdgeRule::Fixed => true,
        EdgeRule::Flux { from, add } => from < len,
        EdgeRule::Wrap { from } => from < len,
    }
}

/// A boundary plan touches only the outer ring of the grid, reads only cells
/// of the grid, and sets every cell of the outer ring.
pub proof fn lemma_plan_2d_covers_boundary(
    rows: usize,
    cols: usize,
    inner_rows_only: bool,
    kinds: BoundaryKinds2D,
)
    requires
        plan_2d_shape_ok(rows as nat, cols as nat, inner_rows_only, kinds),
    ensures
        ({
            let plan = spec_plan_2d(rows as nat, cols as nat, inner_rows_only, kinds);
            &&& forall|k: int|
                0 <= k < plan.len() ==> {
                    &&& plan[k].row < rows
                    &&& plan[k].col < cols
                    &&& on_boundary(rows as nat, cols as nat, plan[k].row as int, plan[k].col as int)
                    &&& reads_inside(plan[k], rows as nat, cols as nat)
                }
            &&& forall|r: int, c: int|
                0 <= r < rows && 0 <= c < cols && on_boundary(rows as nat, cols as nat, r, c) ==> exists|k: int|
                    0 <= k < plan.len() && #[trigger] plan[k].row == r && plan[k].col == c
        }),
{
    let plan = spec_plan_2d(rows as nat, cols as nat, inner_rows_only, kinds);
    let nr = x_row_count(rows as nat, inner_rows_only);
    let r0 = first_x_row(inner_rows_only);
    assert forall|r: int, c: int|
        0 <= r < rows && 0 <= c < cols && on_boundary(rows as nat, cols as nat, r, c) implies exists|k: int|
        0 <= k < plan.len() && #[trigger] plan[k].row == r && plan[k].col == c by {
        if r == 0 {
            let k = 2 * nr + 2 * c;
            assert((2 * c) / 2 == c && (2 * c) % 2 == 0) by (nonlinear_arith);
            assert(plan[k].row == r && plan[k].col == c);
        } else if r == rows - 1 {
            let k = 2 * nr + 2 * c + 1;
            assert((2 * c + 1) / 2 == c && (2 * c + 1) % 2 == 1) by (nonlinear_arith);
            assert(plan[k].row == r && plan[k].col == c);
        } else if c == 0 {
            let k = 2 * (r - r0);
            assert((2 * (r - r0)) / 2 == r - r0 && (2 * (r - r0)) % 2 == 0) by (nonlinear_arith);
            assert(plan[k].row == r && plan[k].col == c);
        } else {
            let k = 2 * (r - r0) + 1;
            assert((2 * (r - r0) + 1) / 2 == r - r0 && (2 * (r - r0) + 1) % 2 == 1)
                by (nonlinear_arith);
            assert(plan[k].row == r && plan[k].col == c);
        }
    }
}

/// A boundary plan sets all x-boundary cells before any y-boundary cell, so
/// where an x-edge and a y-edge meet, the y-edge rule is the one that stands.
pub proof fn lemma_plan_2d_y_edges_last(
    rows: usize,
    cols: usize,
    inner_rows_only: bool,
    kinds: BoundaryKinds2D,
)
    requires
        plan_2d_shape_ok(rows as nat, cols as nat, inner_rows_only, kinds),
    ensures
        ({
            let plan = spec_plan_2d(rows as nat, cols as nat, inner_rows_only, kinds);
            forall|k1: int, k2: int|
                0 <= k1 < k2 < plan.len() && #[trigger] plan[k1].axis == Axis::Y ==> #[trigger] plan[k2].axis
                    == Axis::Y
        }),
{
}

/// The closure `fixed` computes the spec function `fx`: the prescribed
/// value of a Dirichlet edge.
pub open spec fn computes_fixed<T, D: Fn(Axis, Side) -> T>(
    fixed: D,
    fx: spec_fn(Axis, Side) -> T,
) -> bool {
    forall|a: Axis, s: Side, v: T| #[trigger] fixed.ensures((a, s), v) ==> v == fx(a, s)
}

/// The closure `flux` computes the spec function `fl`: the value of a
/// Neumann edge from its neighbour's value, adding (`true`) or subtracting
/// the spacing times the flux.
pub open spec fn computes_flux<T, N: Fn(Axis, Side, T, bool) -> T>(
    flux: N,
    fl: spec_fn(Axis, Side, T, bool) -> T,
) -> bool {
    forall|a: Axis, s: Side, x: T, add: bool, v: T| #[trigger] flux.ensures((a, s, x, add), v) ==> v
        == fl(a, s, x, add)
}

/// The value that `rule` gives the boundary cell at the `side` end of
/// `axis`, reading the cells of that axis in `line`.
pub open spec fn edge_value<T>(
    rule: EdgeRule,
    line: Seq<T>,
    axis: Axis,
    side: Side,
    fx: spec_fn(Axis, Side) -> T,
    fl: spec_fn(Axis, Side, T, bool) -> T,
) -> T {
    match rule {
        EdgeRule::Fixed => fx(axis, side),
        EdgeRule::Flux { from, add } => fl(axis, side, line[from as int], add),
        EdgeRule::Wrap { from } => line[from as int],
    }
}

/// An edge rule reads only cells of an axis of `len` cells.
pub open spec fn rule_reads_within(rule: EdgeRule, len: nat) -> bool {
    match rule {
        EdgeRule::Fixed => true,
        EdgeRule::Flux { from, add } => from < len,
        EdgeRule::Wrap { from } => from < len,
    }
}

/// Both ends of a vector set in turn: the low end by `low`, then the high
/// end by `high`, which reads the vector as the low update left it.
pub open spec fn spec_apply_edges_1d<T>(
    u: Seq<T>,
    low: EdgeRule,
    high: EdgeRule,
    fx: spec_fn(Axis, Side) -> T,
    fl: spec_fn(Axis, Side, T, bool) -> T,
) -> Seq<T> {
    let u1 = u.update(0, edge_value(low, u, Axis::X, Side::Low, fx, fl));
    u1.update(u.len() - 1, edge_value(high, u1, Axis::X, Side::High, fx, fl))
}

/// An edge rule reads no boundary cell of an axis of `len` cells: it is
/// fixed, or reads a cell strictly between the two ends.
pub open spec fn reads_interior(rule: EdgeRule, len: nat) -> bool {
    match rule {
        EdgeRule::Fixed => true,
        EdgeRule::Flux { from, add } => 0 < from < len - 1,
        EdgeRule::Wrap { from } => 0 < from < len - 1,
    }
}

/// On an axis of three or more cells, the rules for every kind read only
/// interior cells.
pub proof fn lemma_edge_rules_read_interior(kind: BoundaryKind, side: Side, len: usize)
    requires
        len >= 3,
    ensures
        reads_interior(spec_edge_rule(kind, side, len as nat), len as nat),
{
}

/// Once both ends of a vector of three or more cells have been set by rules
/// that read only interior cells, each end satisfies its rule against the
/// vector as it now stands, so setting the ends again changes nothing.
pub proof fn lemma_apply_edges_1d_settles<T>(
    u: Seq<T>,
    low: EdgeRule,
    high: EdgeRule,
    fx: spec_fn(Axis, Side) -> T,
    fl: spec_fn(Axis, Side, T, bool) -> T,
)
    requires
        u.len() >= 3,
        reads_interior(low, u.len()),
        reads_interior(high, u.len()),
    ensures
        ({
            let w = spec_apply_edges_1d(u, low, high, fx, fl);
            &&& w[0] == edge_value(low, w, Axis::X, Side::Low, fx, fl)
            &&& w[w.len() - 1] == edge_value(high, w, Axis::X, Side::High, fx, fl)
            &&& spec_apply_edges_1d(w, low, high, fx, fl) == w
        }),
{
    let w = spec_apply_edges_1d(u, low, high, fx, fl);
    let u1 = u.update(0, edge_value(low, u, Axis::X, Side::Low, fx, fl));
    assert(edge_value(low, w, Axis::X, Side::Low, fx, fl) == edge_value(low, u, Axis::X, Side::Low, fx, fl));
    assert(edge_value(high, w, Axis::X, Side::High, fx, fl) == edge_value(high, u1, Axis::X, Side::High, fx, fl));
    let w1 = w.update(0, edge_value(low, w, Axis::X, Side::Low, fx, fl));
    assert(w1 =~= w);
    assert(spec_apply_edges_1d(w, low, high, fx, fl) =~= w);
}

/// Once both ends of a vector of three or more cells have been set by the
/// rules for their kinds, each end meets its condition against the final
/// vector `w`, with its own side's value and flux: `w[0]` is `fx(X, Low)`,
/// `fl(X, Low, w[1], false)` (the neighbour less the flux term) or
/// `w[len-2]`; `w[len-1]` is `fx(X, High)`, `fl(X, High, w[len-2], true)`
/// (the neighbour plus the flux term) or `w[1]`.
pub proof fn lemma_apply_edges_1d_conditions<T>(
    u: Seq<T>,
    low: BoundaryKind,
    high: BoundaryKind,
    fx: spec_fn(Axis, Side) -> T,
    fl: spec_fn(Axis, Side, T, bool) -> T,
)
    requires
        3 <= u.len() <= usize::MAX,
    ensures
        ({
            let n = u.len() as int;
            let w = spec_apply_edges_1d(
                u,
                spec_edge_rule(low, Side::Low, u.len()),
                spec_edge_rule(high, Side::High, u.len()),
                fx,
                fl,
            );
            &&& condition_met(low, w[0], fx(Axis::X, Side::Low), fl(Axis::X, Side::Low, w[1], false), w[n - 2])
            &&& condition_met(
                high,
                w[n - 1],
                fx(Axis::X, Side::High),
                fl(Axis::X, Side::High, w[n - 2], true),
                w[1],
            )
        }),
{
    lemma_edge_rules_read_interior(low, Side::Low, u.len() as usize);
    lemma_edge_rules_read_interior(high, Side::High, u.len() as usize);
    lemma_apply_edges_1d_settles(
        u,
        spec_edge_rule(low, Side::Low, u.len()),
        spec_edge_rule(high, Side::High, u.len()),
        fx,
        fl,
    );
}

/// The value `rule` gives a boundary cell, computed from `line`.
fn edge_value_exec<T: Copy, D: Fn(Axis, Side) -> T, N: Fn(Axis, Side, T, bool) -> T>(
    rule: EdgeRule,
    line: &Vec<T>,
    axis: Axis,
    side: Side,
    fixed: &D,
    flux: &N,
) -> (v: T)
    requires
        rule_reads_within(rule, line.len() as nat),
        forall|a: Axis, s: Side| #[trigger] fixed.requires((a, s)),
        forall|a: Axis, s: Side, x: T, add: bool| #[trigger] flux.requires((a, s, x, add)),
    ensures
        rule matches EdgeRule::Wrap { from } ==> v == line@[from as int],
        forall|fx: spec_fn(Axis, Side) -> T, fl: spec_fn(Axis, Side, T, bool) -> T|
            computes_fixed(*fixed, fx) && computes_flux(*flux, fl) ==> v == edge_value(
                rule,
                line@,
                axis,
                side,
                fx,
                fl,
            ),
{
    match rule {
        EdgeRule::Fixed => fixed(axis, side),
        EdgeRule::Flux { from, add } => flux(axis, side, line[from], add),
        EdgeRule::Wrap { from } => line[from],
    }
}

/// Sets both ends of `u`: the low end by `low`, then the high end by
/// `high`.  A Dirichlet end takes the value `fixed` gives for it, a Neumann
/// end the value `flux` computes from its neighbour, a periodic end a copy
/// of the cell it wraps to; the cells in between are left alone.
pub fn apply_edges_1d<T: Copy, D: Fn(Axis, Side) -> T, N: Fn(Axis, Side, T, bool) -> T>(
    u: &mut Vec<T>,
    low: EdgeRule,
    high: EdgeRule,
    fixed: D,
    flux: N,
)
    requires
        old(u).len() >= 1,
        rule_reads_within(low, old(u).len() as nat),
        rule_reads_within(high, old(u).len() as nat),
        forall|a: Axis, s: Side| #[trigger] fixed.requires((a, s)),
        forall|a: Axis, s: Side, x: T, add: bool| #[trigger] flux.requires((a, s, x, add)),
    ensures
        final(u).len() == old(u).len(),
        forall|i: int| 0 < i < old(u).len() - 1 ==> #[trigger] final(u)[i] == old(u)[i],
        forall|fx: spec_fn(Axis, Side) -> T, fl: spec_fn(Axis, Side, T, bool) -> T|
            computes_fixed(fixed, fx) && computes_flux(flux, fl) ==> final(u)@
                == spec_apply_edges_1d(old(u)@, low, high, fx, fl),
{
    let n = u.len();
    let ghost u0 = u@;
    let v_low = edge_value_exec(low, u, Axis::X, Side::Low, &fixed, &flux);
    u.set(0, v_low);
    let ghost u1 = u@;
    let v_high = edge_value_exec(high, u, Axis::X, Side::High, &fixed, &flux);
    u.set(n - 1, v_high);
    proof {
        assert forall|fx: spec_fn(Axis, Side) -> T, fl: spec_fn(Axis, Side, T, bool) -> T|
            computes_fixed(fixed, fx) && computes_flux(flux, fl) implies u@ == spec_apply_edges_1d(
            u0,
            low,
            high,
            fx,
            fl,
        ) by {
            assert(u1 == u0.update(0, edge_value(low, u0, Axis::X, Side::Low, fx, fl)));
            assert(u@ =~= spec_apply_edges_1d(u0, low, high, fx, fl));
        }
    }
}

/// The cell that an update with source index `from` reads: in the same
/// row for an x-edge, in the same column for a y-edge.
pub open spec fn source_cell<T>(g: Seq<Seq<T>>, u: CellUpdate, from: usize) -> T {
    match u.axis {
        Axis::X => g[u.row as int][from as int],
        Axis::Y => g[from as int][u.col as int],
    }
}

/// The value an update writes into its cell of grid `g`.
pub open spec fn update_value<T>(
    g: Seq<Seq<T>>,
    u: CellUpdate,
    fx: spec_fn(Axis, Side) -> T,
    fl: spec_fn(Axis, Side, T, bool) -> T,
) -> T {
    match u.rule {
        EdgeRule::Fixed => fx(u.axis, u.side),
        EdgeRule::Flux { from, add } => fl(u.axis, u.side, source_cell(g, u, from), add),
        EdgeRule::Wrap { from } => source_cell(g, u, from),
    }
}

/// Grid `g` after one update.
pub open spec fn apply_update<T>(
    g: Seq<Seq<T>>,
    u: CellUpdate,
    fx: spec_fn(Axis, Side) -> T,
    fl: spec_fn(Axis, Side, T, bool) -> T,
) -> Seq<Seq<T>> {
    g.update(u.row as int, g[u.row as int].update(u.col as int, update_value(g, u, fx, fl)))
}

/// Grid `g` after the updates of `plan`, in order.
pub open spec fn spec_apply_plan<T>(
    g: Seq<Seq<T>>,
    plan: Seq<CellUpdate>,
    fx: spec_fn(Axis, Side) -> T,
    fl: spec_fn(Axis, Side, T, bool) -> T,
) -> Seq<Seq<T>>
    decreases plan.len(),
{
    if plan.len() == 0 {
        g
    } else {
        apply_update(spec_apply_plan(g, plan.drop_last(), fx, fl), plan.last(), fx, fl)
    }
}

/// The rows of a grid, each as a sequence.
pub open spec fn grid_view<T>(g: Vec<Vec<T>>) -> Seq<Seq<T>> {
    Seq::new(g.len() as nat, |r: int| g[r]@)
}

/// Every row of `g` has at least `cols` cells.
pub open spec fn rows_reach<T>(g: Seq<Seq<T>>, cols: nat) -> bool {
    forall|r: int| 0 <= r < g.len() ==> #[trigger] g[r].len() >= cols
}

/// An update targets a cell of a `rows` x `cols` grid and reads only cells
/// of it.
pub open spec fn update_fits(u: CellUpdate, rows: nat, cols: nat) -> bool {
    u.row < rows && u.col < cols && reads_inside(u, rows, cols)
}

/// Carries out the updates of `plan` on `grid` in order, each reading the
/// grid as the updates before it left it.
pub fn apply_plan_2d<T: Copy, D: Fn(Axis, Side) -> T, N: Fn(Axis, Side, T, bool) -> T>(
    grid: &mut Vec<Vec<T>>,
    cols: usize,
    plan: &Vec<CellUpdate>,
    fixed: D,
    flux: N,
)
    requires
        rows_reach(grid_view(*old(grid)), cols as nat),
        forall|k: int|
            0 <= k < plan.len() ==> update_fits(#[trigger] plan[k], old(grid).len() as nat, cols as nat),
        forall|a: Axis, s: Side| #[trigger] fixed.requires((a, s)),
        forall|a: Axis, s: Side, x: T, add: bool| #[trigger] flux.requires((a, s, x, add)),
    ensures
        final(grid).len() == old(grid).len(),
        forall|r: int| 0 <= r < old(grid).len() ==> #[trigger] final(grid)[r].len() == old(grid)[r].len(),
        forall|fx: spec_fn(Axis, Side) -> T, fl: spec_fn(Axis, Side, T, bool) -> T|
            computes_fixed(fixed, fx) && computes_flux(flux, fl) ==> grid_view(*final(grid))
                == spec_apply_plan(grid_view(*old(grid)), plan@, fx, fl),
{
    let ghost g0 = grid_view(*grid);
    let ghost lens = Seq::new(grid.len() as nat, |r: int| grid[r].len());
    let rows = grid.len();
    assert forall|r: int| 0 <= r < rows implies lens[r] >= cols by {
        assert(g0[r].len() >= cols);
    }
    let mut k: usize = 0;
    while k < plan.len()
        invariant
            k <= plan.len(),
            rows == grid.len(),
            rows == g0.len(),
            lens.len() == rows,
            forall|r: int| 0 <= r < rows ==> #[trigger] grid[r].len() == lens[r],
            forall|r: int| 0 <= r < rows ==> lens[r] >= cols,
            forall|j: int| 0 <= j < plan.len() ==> update_fits(#[trigger] plan[j], rows as nat, cols as nat),
            forall|a: Axis, s: Side| #[trigger] fixed.requires((a, s)),
            forall|a: Axis, s: Side, x: T, add: bool| #[trigger] flux.requires((a, s, x, add)),
            forall|fx: spec_fn(Axis, Side) -> T, fl: spec_fn(Axis, Side, T, bool) -> T|
                computes_fixed(fixed, fx) && computes_flux(flux, fl) ==> grid_view(*grid)
                    == spec_apply_plan(g0, plan@.take(k as int), fx, fl),
        decreases plan.len() - k,
    {
        let upd = plan[k];
        assert(update_fits(plan[k as int], rows as nat, cols as nat));
        assert(grid[upd.row as int].len() == lens[upd.row as int]);
        let ghost before = grid_view(*grid);
        let v = match upd.rule {
            EdgeRule::Fixed => fixed(upd.axis, upd.side),
            EdgeRule::Flux { from, add } => {
                let nb = match upd.axis {
                    Axis::X => grid[upd.row][from],
                    Axis::Y => {
                        assert(grid[from as int].len() == lens[from as int]);
                        grid[from][upd.col]
                    },
                };
                flux(upd.axis, upd.side, nb, add)
            },
            EdgeRule::Wrap { from } => match upd.axis {
                Axis::X => grid[upd.row][from],
                Axis::Y => {
                    assert(grid[from as int].len() == lens[from as int]);
                    grid[from][upd.col]
                },
            },
        };
        let mut row: Vec<T> = Vec::new();
        std::mem::swap(&mut row, &mut grid[upd.row]);
        row.set(upd.col, v);
        std::mem::swap(&mut row, &mut grid[upd.row]);
        proof {
            assert(plan@.take(k + 1).drop_last() =~= plan@.take(k as int));
            assert(plan@.take(k + 1).last() == upd);
            assert forall|fx: spec_fn(Axis, Side) -> T, fl: spec_fn(Axis, Side, T, bool) -> T|
                computes_fixed(fixed, fx) && computes_flux(flux, fl) implies grid_view(*grid)
                == spec_apply_plan(g0, plan@.take(k + 1), fx, fl) by {
                assert(v == update_value(before, upd, fx, fl));
                assert(grid_view(*grid) =~= apply_update(before, upd, fx, fl));
                assert(spec_apply_plan(g0, plan@.take(k + 1), fx, fl) == apply_update(
                    spec_apply_plan(g0, plan@.take(k as int), fx, fl),
                    upd,
                    fx,
                    fl,
                ));
            }
        }
        k += 1;
    }
    assert(plan@.take(plan.len() as int) =~= plan@);
}

/// Sets the boundary cells of the first `cols` columns of `grid` by the plan
/// for its boundary kinds, as `apply_plan_2d` carries it out.
pub fn apply_boundary_2d<T: Copy, D: Fn(Axis, Side) -> T, N: Fn(Axis, Side, T, bool) -> T>(
    grid: &mut Vec<Vec<T>>,
    cols: usize,
    inner_rows_only: bool,
    kinds: BoundaryKinds2D,
    fixed: D,
    flux: N,
)
    requires
        plan_2d_shape_ok(old(grid).len() as nat, cols as nat, inner_rows_only, kinds),
        2 * old(grid).len() + 2 * cols <= usize::MAX,
        rows_reach(grid_view(*old(grid)), cols as nat),
        forall|a: Axis, s: Side| #[trigger] fixed.requires((a, s)),
        forall|a: Axis, s: Side, x: T, add: bool| #[trigger] flux.requires((a, s, x, add)),
    ensures
        final(grid).len() == old(grid).len(),
        forall|r: int| 0 <= r < old(grid).len() ==> #[trigger] final(grid)[r].len() == old(grid)[r].len(),
        forall|fx: spec_fn(Axis, Side) -> T, fl: spec_fn(Axis, Side, T, bool) -> T|
            computes_fixed(fixed, fx) && computes_flux(flux, fl) ==> grid_view(*final(grid))
                == spec_apply_plan(
                grid_view(*old(grid)),
                spec_plan_2d(old(grid).len() as nat, cols as nat, inner_rows_only, kinds),
                fx,
                fl,
            ),
        forall|fx: spec_fn(Axis, Side) -> T, fl: spec_fn(Axis, Side, T, bool) -> T|
            computes_fixed(fixed, fx) && computes_flux(flux, fl) && old(grid).len() >= 3 && cols >= 3
                ==> (forall|j: int|
                0 <= j < cols ==> #[trigger] column_ends_met(
                    grid_view(*final(grid)),
                    old(grid).len() as int,
                    kinds,
                    fx,
                    fl,
                    j,
                )) && (forall|r: int|
                0 < r < old(grid).len() - 1 ==> #[trigger] row_ends_met(
                    grid_view(*final(grid)),
                    cols as int,
                    kinds,
                    fx,
                    fl,
                    r,
                )),
{
    let ghost g0 = grid_view(*grid);
    let rows = grid.len();
    let plan = plan_2d(rows, cols, inner_rows_only, kinds);
    proof {
        lemma_plan_2d_covers_boundary(rows, cols, inner_rows_only, kinds);
        assert forall|k: int| 0 <= k < plan.len() implies update_fits(
            #[trigger] plan[k],
            rows as nat,
            cols as nat,
        ) by {
            assert(plan[k] == plan@[k]);
        }
    }
    apply_plan_2d(grid, cols, &plan, fixed, flux);
    proof {
        assert forall|fx: spec_fn(Axis, Side) -> T, fl: spec_fn(Axis, Side, T, bool) -> T|
            computes_fixed(fixed, fx) && computes_flux(flux, fl) && rows >= 3 && cols >= 3 implies (
        forall|j: int|
            0 <= j < cols ==> #[trigger] column_ends_met(
                grid_view(*grid),
                rows as int,
                kinds,
                fx,
                fl,
                j,
            )) && (forall|r: int|
            0 < r < rows - 1 ==> #[trigger] row_ends_met(
                grid_view(*grid),
                cols as int,
                kinds,
                fx,
                fl,
                r,
            )) by {
            assert(grid_view(*grid) == spec_apply_plan(g0, plan@, fx, fl));
            assert(plan@ == spec_plan_2d(rows as nat, cols as nat, inner_rows_only, kinds));
            lemma_plan_2d_conditions_hold(g0, cols, inner_rows_only, kinds, fx, fl);
        }
    }
}

/// `u` with one cell `fill` added before and after it.
pub open spec fn spec_pad_1d<T>(u: Seq<T>, fill: T) -> Seq<T> {
    seq![fill] + u + seq![fill]
}

/// Copies `u` into the middle of a vector two cells longer, whose two end
/// cells, the ghost cells of the boundary, hold `fill`.
pub fn pad_1d<T: Copy>(u: &Vec<T>, fill: T) -> (full: Vec<T>)
    requires
        u.len() + 2 <= usize::MAX,
    ensures
        full@ == spec_pad_1d(u@, fill),
{
    let mut full: Vec<T> = Vec::new();
    full.push(fill);
    let mut i: usize = 0;
    while i < u.len()
        invariant
            i <= u.len(),
            full@ == seq![fill] + u@.take(i as int),
        decreases u.len() - i,
    {
        full.push(u[i]);
        i += 1;
        assert(u@.take(i as int) =~= u@.take(i - 1).push(u@[i - 1]));
    }
    full.push(fill);
    assert(u@.take(u.len() as int) =~= u@);
    assert(full@ =~= spec_pad_1d(u@, fill));
    full
}

/// Cell (`i`, `j`) of `u`, `ny` rows of at least `nx` cells, copied into a
/// grid with a ring of ghost cells holding `fill`: `u[i - 1][j - 1]` inside
/// the ring, `fill` on it.
pub open spec fn padded_cell<T>(u: Seq<Seq<T>>, nx: nat, fill: T, i: int, j: int) -> T {
    if 1 <= i <= u.len() && 1 <= j <= nx {
        u[i - 1][j - 1]
    } else {
        fill
    }
}

/// The first `nx` cells of each row of `u`, copied into the middle of a
/// grid with one more row above and below and one more column on each side,
/// whose outer ring holds `fill`.
pub open spec fn spec_pad_2d<T>(u: Seq<Seq<T>>, nx: nat, fill: T) -> Seq<Seq<T>> {
    Seq::new(u.len() + 2, |i: int| Seq::new(nx + 2, |j: int| padded_cell(u, nx, fill, i, j)))
}

/// Copies the first `nx` cells of each row of `u` into a grid of
/// `u.len() + 2` rows of `nx + 2` cells, whose outer ring of ghost cells
/// holds `fill`.
pub fn pad_2d<T: Copy>(u: &Vec<Vec<T>>, nx: usize, fill: T) -> (full: Vec<Vec<T>>)
    requires
        u.len() + 2 <= usize::MAX,
        nx + 2 <= usize::MAX,
        forall|i: int| 0 <= i < u.len() ==> #[trigger] u[i].len() >= nx,
    ensures
        grid_view(full) == spec_pad_2d(grid_view(*u), nx as nat, fill),
{
    let ghost gu = grid_view(*u);
    let ny = u.len();
    let mut full: Vec<Vec<T>> = Vec::new();
    let mut i: usize = 0;
    while i < ny + 2
        invariant
            ny == u.len(),
            ny + 2 <= usize::MAX,
            nx + 2 <= usize::MAX,
            gu == grid_view(*u),
            i <= ny + 2,
            forall|r: int| 0 <= r < u.len() ==> #[trigger] u[r].len() >= nx,
            full.len() == i,
            forall|r: int| 0 <= r < i ==> #[trigger] full[r]@ == spec_pad_2d(gu, nx as nat, fill)[r],
        decreases ny + 2 - i,
    {
        let mut row: Vec<T> = Vec::new();
        let mut j: usize = 0;
        while j < nx + 2
            invariant
                ny == u.len(),
                nx + 2 <= usize::MAX,
                gu == grid_view(*u),
                i < ny + 2,
                j <= nx + 2,
                forall|r: int| 0 <= r < u.len() ==> #[trigger] u[r].len() >= nx,
                row.len() == j,
                forall|c: int| 0 <= c < j ==> #[trigger] row[c] == padded_cell(gu, nx as nat, fill, i as int, c),
            decreases nx + 2 - j,
        {
            let v = if 1 <= i && i <= ny && 1 <= j && j <= nx {
                assert(u[i - 1].len() >= nx);
                u[i - 1][j - 1]
            } else {
                fill
            };
            row.push(v);
            j += 1;
        }
        assert(row@ =~= spec_pad_2d(gu, nx as nat, fill)[i as int]);
        full.push(row);
        i += 1;
    }
    assert(grid_view(full) =~= spec_pad_2d(gu, nx as nat, fill));
    full
}

} // verus!
