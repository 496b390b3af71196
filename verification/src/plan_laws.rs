//! What boundary plans do to a grid when they are carried out: the plan that
//! leaves the x-boundaries of the first and last rows to the y pass and the
//! plan that sets them too end in the same grid, and once the in-place plan
//! has been carried out on a grid of at least three rows and three columns,
//! every cell of its outer ring satisfies the rule that set it last.

use vstd::prelude::*;
use crate::boundary::{
    apply_update,
    lemma_edge_rules_read_interior,
    lemma_plan_2d_covers_boundary,
    on_boundary,
    plan_2d_shape_ok,
    spec_edge_rule,
    rows_reach,
    spec_apply_plan,
    spec_plan_2d,
    update_fits,
    update_value,
    Axis,
    BoundaryKind,
    BoundaryKinds2D,
    CellUpdate,
    EdgeRule,
    Side,
};

verus! {

/// Grids `a` and `b` have the same shape, and their cells agree except,
/// possibly, cells of the first row from column `lo` and cells of the last
/// row from column `hi`, below column `cols`.
spec fn agree_off_edges<T>(a: Seq<Seq<T>>, b: Seq<Seq<T>>, cols: nat, lo: int, hi: int) -> bool {
    &&& a.len() == b.len()
    &&& forall|r: int| 0 <= r < a.len() ==> #[trigger] a[r].len() == b[r].len()
    &&& forall|r: int, c: int|
        #![trigger a[r][c]]
        0 <= r < a.len() && 0 <= c < a[r].len() && a[r][c] != b[r][c] ==> (r == 0 && lo <= c
            < cols) || (r == a.len() - 1 && hi <= c < cols)
}

/// The cell an update reads, if any, lies in a row other than the first
/// and the last.
spec fn reads_inner_row(u: CellUpdate, rows: nat) -> bool {
    let from_row = |from: usize|
        match u.axis {
            Axis::X => u.row as int,
            Axis::Y => from as int,
        };
    match u.rule {
        EdgeRule::Fixed => true,
        EdgeRule::Flux { from, add } => 0 < from_row(from) < rows - 1,
        EdgeRule::Wrap { from } => 0 < from_row(from) < rows - 1,
    }
}

/// Grid `g` after the first `k` updates of the plan.
spec fn after_steps<T>(
    g: Seq<Seq<T>>,
    cols: usize,
    inner_rows_only: bool,
    kinds: BoundaryKinds2D,
    fx: spec_fn(Axis, Side) -> T,
    fl: spec_fn(Axis, Side, T, bool) -> T,
    k: int,
) -> Seq<Seq<T>> {
    spec_apply_plan(g, spec_plan_2d(g.len(), cols as nat, inner_rows_only, kinds).take(k), fx, fl)
}

/// Carrying out one more update of a plan.
proof fn lemma_take_step<T>(
    g: Seq<Seq<T>>,
    p: Seq<CellUpdate>,
    k: int,
    fx: spec_fn(Axis, Side) -> T,
    fl: spec_fn(Axis, Side, T, bool) -> T,
)
    requires
        0 <= k < p.len(),
    ensures
        spec_apply_plan(g, p.take(k + 1), fx, fl) == apply_update(
            spec_apply_plan(g, p.take(k), fx, fl),
            p[k],
            fx,
            fl,
        ),
{
    assert(p.take(k + 1).drop_last() =~= p.take(k));
    assert(p.take(k + 1).last() == p[k]);
}

/// Updates that fit the grid keep its shape.
proof fn lemma_apply_plan_shape<T>(
    g: Seq<Seq<T>>,
    p: Seq<CellUpdate>,
    cols: nat,
    fx: spec_fn(Axis, Side) -> T,
    fl: spec_fn(Axis, Side, T, bool) -> T,
)
    requires
        rows_reach(g, cols),
        forall|k: int| 0 <= k < p.len() ==> update_fits(#[trigger] p[k], g.len(), cols),
    ensures
        spec_apply_plan(g, p, fx, fl).len() == g.len(),
        forall|r: int|
            0 <= r < g.len() ==> #[trigger] spec_apply_plan(g, p, fx, fl)[r].len() == g[r].len(),
    decreases p.len(),
{
    if p.len() > 0 {
        let q = p.drop_last();
        assert forall|k: int| 0 <= k < q.len() implies update_fits(#[trigger] q[k], g.len(), cols) by {
            assert(q[k] == p[k]);
        }
        lemma_apply_plan_shape(g, q, cols, fx, fl);
        assert(update_fits(p[p.len() - 1], g.len(), cols));
    }
}

/// The first `k` updates of a whole plan keep the grid's shape.
proof fn lemma_after_steps_shape<T>(
    g: Seq<Seq<T>>,
    cols: usize,
    inner_rows_only: bool,
    kinds: BoundaryKinds2D,
    fx: spec_fn(Axis, Side) -> T,
    fl: spec_fn(Axis, Side, T, bool) -> T,
    k: int,
)
    requires
        g.len() <= usize::MAX,
        plan_2d_shape_ok(g.len(), cols as nat, inner_rows_only, kinds),
        rows_reach(g, cols as nat),
        0 <= k <= spec_plan_2d(g.len(), cols as nat, inner_rows_only, kinds).len(),
    ensures
        rows_reach(after_steps(g, cols, inner_rows_only, kinds, fx, fl, k), cols as nat),
        after_steps(g, cols, inner_rows_only, kinds, fx, fl, k).len() == g.len(),
        forall|r: int|
            0 <= r < g.len() ==> #[trigger] after_steps(g, cols, inner_rows_only, kinds, fx, fl, k)[r].len()
                == g[r].len(),
{
    let p = spec_plan_2d(g.len(), cols as nat, inner_rows_only, kinds);
    lemma_plan_2d_covers_boundary(g.len() as usize, cols, inner_rows_only, kinds);
    let q = p.take(k);
    assert forall|j: int| 0 <= j < q.len() implies update_fits(#[trigger] q[j], g.len(), cols as nat) by {
        assert(q[j] == p[j]);
    }
    lemma_apply_plan_shape(g, q, cols as nat, fx, fl);
    let a = after_steps(g, cols, inner_rows_only, kinds, fx, fl, k);
    assert forall|r: int| 0 <= r < a.len() implies #[trigger] a[r].len() >= cols by {
        assert(a[r].len() == g[r].len());
    }
}

/// An update of a cell of the first or last row, done to one grid only,
/// keeps two grids agreeing off those rows.
proof fn lemma_edge_row_update<T>(
    a: Seq<Seq<T>>,
    b: Seq<Seq<T>>,
    u: CellUpdate,
    cols: nat,
    fx: spec_fn(Axis, Side) -> T,
    fl: spec_fn(Axis, Side, T, bool) -> T,
)
    requires
        agree_off_edges(a, b, cols, 0, 0),
        a.len() >= 1,
        u.row == 0 || u.row == a.len() - 1,
        u.col < cols,
        u.col < a[u.row as int].len(),
    ensures
        agree_off_edges(apply_update(a, u, fx, fl), b, cols, 0, 0),
{
    let a2 = apply_update(a, u, fx, fl);
    assert forall|r: int, c: int|
        #![trigger a2[r][c]]
        0 <= r < a2.len() && 0 <= c < a2[r].len() && a2[r][c] != b[r][c] implies (r == 0 && 0 <= c
        < cols) || (r == a2.len() - 1 && 0 <= c < cols) by {
        if r != u.row || c != u.col {
            assert(a2[r][c] == a[r][c]);
        }
    }
    assert forall|r: int| 0 <= r < a2.len() implies #[trigger] a2[r].len() == b[r].len() by {
        assert(a2[r].len() == a[r].len());
    }
}

/// The same update, reading a cell off the first and last rows, done to two
/// grids that agree off those rows, writes the same value into both.
proof fn lemma_shared_update<T>(
    a: Seq<Seq<T>>,
    b: Seq<Seq<T>>,
    u: CellUpdate,
    cols: nat,
    lo: int,
    hi: int,
    fx: spec_fn(Axis, Side) -> T,
    fl: spec_fn(Axis, Side, T, bool) -> T,
)
    requires
        agree_off_edges(a, b, cols, lo, hi),
        rows_reach(a, cols),
        update_fits(u, a.len(), cols),
        reads_inner_row(u, a.len()),
    ensures
        agree_off_edges(apply_update(a, u, fx, fl), apply_update(b, u, fx, fl), cols, lo, hi),
        apply_update(a, u, fx, fl)[u.row as int][u.col as int] == apply_update(b, u, fx, fl)[u.row as int][u.col as int],
{
    let a2 = apply_update(a, u, fx, fl);
    let b2 = apply_update(b, u, fx, fl);
    assert(a[u.row as int].len() >= cols);
    match u.rule {
        EdgeRule::Fixed => {},
        EdgeRule::Flux { from, add } => {
            match u.axis {
                Axis::X => {
                    assert(a[u.row as int][from as int] == b[u.row as int][from as int]);
                },
                Axis::Y => {
                    assert(a[from as int].len() >= cols);
                    assert(a[from as int][u.col as int] == b[from as int][u.col as int]);
                },
            }
        },
        EdgeRule::Wrap { from } => {
            match u.axis {
                Axis::X => {
                    assert(a[u.row as int][from as int] == b[u.row as int][from as int]);
                },
                Axis::Y => {
                    assert(a[from as int].len() >= cols);
                    assert(a[from as int][u.col as int] == b[from as int][u.col as int]);
                },
            }
        },
    }
    assert forall|r: int, c: int|
        #![trigger a2[r][c]]
        0 <= r < a2.len() && 0 <= c < a2[r].len() && a2[r][c] != b2[r][c] implies (r == 0 && lo <= c
        < cols) || (r == a2.len() - 1 && hi <= c < cols) by {
        if r != u.row || c != u.col {
            assert(a2[r][c] == a[r][c] && b2[r][c] == b[r][c]);
        }
    }
    assert forall|r: int| 0 <= r < a2.len() implies #[trigger] a2[r].len() == b2[r].len() by {
        assert(a2[r].len() == a[r].len() && b2[r].len() == b[r].len());
    }
}

/// The demands that the phases below share: a grid of three or more rows
/// whose shape both plans accept.
spec fn phase_ok<T>(g: Seq<Seq<T>>, cols: usize, kinds: BoundaryKinds2D) -> bool {
    &&& 3 <= g.len() <= usize::MAX
    &&& plan_2d_shape_ok(g.len(), cols as nat, false, kinds)
    &&& rows_reach(g, cols as nat)
}

/// The x-updates of the first row, done by the full plan only.
proof fn lemma_phase_first_row<T>(
    g: Seq<Seq<T>>,
    cols: usize,
    kinds: BoundaryKinds2D,
    fx: spec_fn(Axis, Side) -> T,
    fl: spec_fn(Axis, Side, T, bool) -> T,
    k: int,
)
    requires
        phase_ok(g, cols, kinds),
        0 <= k <= 2,
    ensures
        agree_off_edges(after_steps(g, cols, false, kinds, fx, fl, k), g, cols as nat, 0, 0),
    decreases k,
{
    let p = spec_plan_2d(g.len(), cols as nat, false, kinds);
    if k == 0 {
        assert(p.take(0) =~= Seq::<CellUpdate>::empty());
    } else {
        lemma_phase_first_row(g, cols, kinds, fx, fl, k - 1);
        lemma_take_step(g, p, k - 1, fx, fl);
        lemma_after_steps_shape(g, cols, false, kinds, fx, fl, k - 1);
        lemma_edge_row_update(after_steps(g, cols, false, kinds, fx, fl, k - 1), g, p[k - 1], cols as nat, fx, fl);
    }
}

/// The x-updates of the inner rows, done by both plans.
proof fn lemma_phase_inner_rows<T>(
    g: Seq<Seq<T>>,
    cols: usize,
    kinds: BoundaryKinds2D,
    fx: spec_fn(Axis, Side) -> T,
    fl: spec_fn(Axis, Side, T, bool) -> T,
    k: int,
)
    requires
        phase_ok(g, cols, kinds),
        0 <= k <= 2 * (g.len() - 2),
    ensures
        agree_off_edges(
            after_steps(g, cols, false, kinds, fx, fl, k + 2),
            after_steps(g, cols, true, kinds, fx, fl, k),
            cols as nat,
            0,
            0,
        ),
    decreases k,
{
    let pf = spec_plan_2d(g.len(), cols as nat, false, kinds);
    let pt = spec_plan_2d(g.len(), cols as nat, true, kinds);
    if k == 0 {
        lemma_phase_first_row(g, cols, kinds, fx, fl, 2);
        assert(pt.take(0) =~= Seq::<CellUpdate>::empty());
    } else {
        let j = k - 1;
        lemma_phase_inner_rows(g, cols, kinds, fx, fl, j);
        lemma_take_step(g, pf, j + 2, fx, fl);
        lemma_take_step(g, pt, j, fx, fl);
        lemma_after_steps_shape(g, cols, false, kinds, fx, fl, j + 2);
        lemma_plan_2d_covers_boundary(g.len() as usize, cols, true, kinds);
        assert((j + 2) / 2 == 1 + j / 2 && (j + 2) % 2 == j % 2);
        assert(pf[j + 2] == pt[j]);
        assert(update_fits(pt[j], g.len(), cols as nat));
        lemma_shared_update(
            after_steps(g, cols, false, kinds, fx, fl, j + 2),
            after_steps(g, cols, true, kinds, fx, fl, j),
            pt[j],
            cols as nat,
            0,
            0,
            fx,
            fl,
        );
    }
}

/// The x-updates of the last row, done by the full plan only.
proof fn lemma_phase_last_row<T>(
    g: Seq<Seq<T>>,
    cols: usize,
    kinds: BoundaryKinds2D,
    fx: spec_fn(Axis, Side) -> T,
    fl: spec_fn(Axis, Side, T, bool) -> T,
    k: int,
)
    requires
        phase_ok(g, cols, kinds),
        0 <= k <= 2,
    ensures
        agree_off_edges(
            after_steps(g, cols, false, kinds, fx, fl, 2 * (g.len() - 1) + k),
            after_steps(g, cols, true, kinds, fx, fl, 2 * (g.len() - 2)),
            cols as nat,
            0,
            0,
        ),
    decreases k,
{
    let pf = spec_plan_2d(g.len(), cols as nat, false, kinds);
    let n = g.len() as int;
    if k == 0 {
        lemma_phase_inner_rows(g, cols, kinds, fx, fl, 2 * (n - 2));
    } else {
        let i = 2 * (n - 1) + k - 1;
        lemma_phase_last_row(g, cols, kinds, fx, fl, k - 1);
        lemma_take_step(g, pf, i, fx, fl);
        lemma_after_steps_shape(g, cols, false, kinds, fx, fl, i);
        assert(i / 2 == n - 1);
        lemma_edge_row_update(
            after_steps(g, cols, false, kinds, fx, fl, i),
            after_steps(g, cols, true, kinds, fx, fl, 2 * (n - 2)),
            pf[i],
            cols as nat,
            fx,
            fl,
        );
    }
}

/// The y-updates, done by both plans: after `m` of them the two grids also
/// agree on the first-row cells of the first `(m + 1) / 2` columns and the
/// last-row cells of the first `m / 2` columns.
proof fn lemma_phase_columns<T>(
    g: Seq<Seq<T>>,
    cols: usize,
    kinds: BoundaryKinds2D,
    fx: spec_fn(Axis, Side) -> T,
    fl: spec_fn(Axis, Side, T, bool) -> T,
    m: int,
)
    requires
        phase_ok(g, cols, kinds),
        0 <= m <= 2 * cols,
    ensures
        agree_off_edges(
            after_steps(g, cols, false, kinds, fx, fl, 2 * g.len() + m),
            after_steps(g, cols, true, kinds, fx, fl, 2 * (g.len() - 2) + m),
            cols as nat,
            (m + 1) / 2,
            m / 2,
        ),
    decreases m,
{
    let pf = spec_plan_2d(g.len(), cols as nat, false, kinds);
    let pt = spec_plan_2d(g.len(), cols as nat, true, kinds);
    let n = g.len() as int;
    if m == 0 {
        lemma_phase_last_row(g, cols, kinds, fx, fl, 2);
    } else {
        let j = m - 1;
        lemma_phase_columns(g, cols, kinds, fx, fl, j);
        lemma_take_step(g, pf, 2 * n + j, fx, fl);
        lemma_take_step(g, pt, 2 * (n - 2) + j, fx, fl);
        lemma_after_steps_shape(g, cols, false, kinds, fx, fl, 2 * n + j);
        lemma_plan_2d_covers_boundary(g.len() as usize, cols, true, kinds);
        let u = pt[2 * (n - 2) + j];
        assert(pf[2 * n + j] == u);
        assert(update_fits(u, g.len(), cols as nat));
        lemma_edge_rules_read_interior(kinds.y_low, Side::Low, g.len() as usize);
        lemma_edge_rules_read_interior(kinds.y_high, Side::High, g.len() as usize);
        assert(reads_inner_row(u, g.len()));
        let a = after_steps(g, cols, false, kinds, fx, fl, 2 * n + j);
        let b = after_steps(g, cols, true, kinds, fx, fl, 2 * (n - 2) + j);
        lemma_shared_update(a, b, u, cols as nat, (j + 1) / 2, j / 2, fx, fl);
        let a2 = apply_update(a, u, fx, fl);
        let b2 = apply_update(b, u, fx, fl);
        assert(u.col == j / 2);
        assert(j % 2 == 0 ==> u.row == 0);
        assert(j % 2 == 1 ==> u.row == n - 1);
        assert forall|r: int, c: int|
            #![trigger a2[r][c]]
            0 <= r < a2.len() && 0 <= c < a2[r].len() && a2[r][c] != b2[r][c] implies (r == 0
            && (m + 1) / 2 <= c < cols) || (r == a2.len() - 1 && m / 2 <= c < cols) by {
            if r == u.row && c == u.col {
            }
        }
    }
}

/// On a grid of three or more rows, the plan that leaves the x-boundaries of
/// the first and last rows to the y pass ends in the same grid as the plan
/// that sets them too: the y pass overwrites those cells before anything
/// reads them.  So updating a grid that carries a ring of ghost cells, and
/// updating the same grid in place, give the same result.
pub proof fn lemma_plan_2d_inner_rows_agree<T>(
    g: Seq<Seq<T>>,
    cols: usize,
    kinds: BoundaryKinds2D,
    fx: spec_fn(Axis, Side) -> T,
    fl: spec_fn(Axis, Side, T, bool) -> T,
)
    requires
        3 <= g.len() <= usize::MAX,
        plan_2d_shape_ok(g.len(), cols as nat, false, kinds),
        rows_reach(g, cols as nat),
    ensures
        spec_apply_plan(g, spec_plan_2d(g.len(), cols as nat, true, kinds), fx, fl)
            == spec_apply_plan(g, spec_plan_2d(g.len(), cols as nat, false, kinds), fx, fl),
{
    let pf = spec_plan_2d(g.len(), cols as nat, false, kinds);
    let pt = spec_plan_2d(g.len(), cols as nat, true, kinds);
    let n = g.len() as int;
    lemma_phase_columns(g, cols, kinds, fx, fl, 2 * cols);
    assert(pf.take(2 * n + 2 * cols) =~= pf);
    assert(pt.take(2 * (n - 2) + 2 * cols) =~= pt);
    let a = spec_apply_plan(g, pf, fx, fl);
    let b = spec_apply_plan(g, pt, fx, fl);
    assert((2 * cols + 1) / 2 == cols && (2 * cols) / 2 == cols);
    assert forall|r: int| 0 <= r < a.len() implies #[trigger] a[r] =~= b[r] by {
        assert forall|c: int| 0 <= c < a[r].len() implies a[r][c] == b[r][c] by {
        }
    }
    assert(a =~= b);
}

/// No update of `p` sets cell (`r`, `c`).
spec fn never_sets(p: Seq<CellUpdate>, r: int, c: int) -> bool {
    forall|k: int| #![trigger p[k]] 0 <= k < p.len() ==> !(p[k].row == r && p[k].col == c)
}

/// Carrying out a plan is carrying out its first `k` updates, then the rest.
proof fn lemma_apply_split<T>(
    g: Seq<Seq<T>>,
    p: Seq<CellUpdate>,
    k: int,
    fx: spec_fn(Axis, Side) -> T,
    fl: spec_fn(Axis, Side, T, bool) -> T,
)
    requires
        0 <= k <= p.len(),
    ensures
        spec_apply_plan(g, p, fx, fl) == spec_apply_plan(
            spec_apply_plan(g, p.take(k), fx, fl),
            p.skip(k),
            fx,
            fl,
        ),
    decreases p.len(),
{
    if p.len() == k {
        assert(p.take(k) =~= p);
        assert(p.skip(k) =~= Seq::<CellUpdate>::empty());
    } else {
        let q = p.drop_last();
        lemma_apply_split(g, q, k, fx, fl);
        assert(q.take(k) =~= p.take(k));
        assert(q.skip(k) =~= p.skip(k).drop_last());
        assert(p.skip(k).last() == p.last());
    }
}

/// A cell that no update of the plan sets keeps its value.
proof fn lemma_untouched<T>(
    g: Seq<Seq<T>>,
    p: Seq<CellUpdate>,
    cols: nat,
    r: int,
    c: int,
    fx: spec_fn(Axis, Side) -> T,
    fl: spec_fn(Axis, Side, T, bool) -> T,
)
    requires
        rows_reach(g, cols),
        forall|k: int| 0 <= k < p.len() ==> update_fits(#[trigger] p[k], g.len(), cols),
        never_sets(p, r, c),
        0 <= r < g.len(),
        0 <= c < g[r].len(),
    ensures
        spec_apply_plan(g, p, fx, fl)[r][c] == g[r][c],
    decreases p.len(),
{
    if p.len() > 0 {
        let q = p.drop_last();
        assert forall|k: int| 0 <= k < q.len() implies update_fits(#[trigger] q[k], g.len(), cols) by {
            assert(q[k] == p[k]);
        }
        assert(never_sets(q, r, c)) by {
            assert forall|k: int| 0 <= k < q.len() implies !(q[k].row == r && q[k].col == c) by {
                assert(q[k] == p[k]);
            }
        }
        lemma_untouched(g, q, cols, r, c, fx, fl);
        lemma_apply_plan_shape(g, q, cols, fx, fl);
        let u = p[p.len() - 1];
        assert(!(u.row == r && u.col == c));
        assert(update_fits(u, g.len(), cols));
    }
}

/// The cell an update reads, if it reads one, as a (row, column) pair.
spec fn source_of(u: CellUpdate) -> Option<(int, int)> {
    let at = |from: usize|
        match u.axis {
            Axis::X => (u.row as int, from as int),
            Axis::Y => (from as int, u.col as int),
        };
    match u.rule {
        EdgeRule::Fixed => None,
        EdgeRule::Flux { from, add } => Some(at(from)),
        EdgeRule::Wrap { from } => Some(at(from)),
    }
}

/// If update `k` of a plan is the last to set its cell, and the cell it reads
/// is neither its own nor set by a later update, then in the final grid the
/// cell holds the value the update computes from the final grid.
proof fn lemma_last_write_holds<T>(
    g: Seq<Seq<T>>,
    p: Seq<CellUpdate>,
    cols: nat,
    k: int,
    fx: spec_fn(Axis, Side) -> T,
    fl: spec_fn(Axis, Side, T, bool) -> T,
)
    requires
        rows_reach(g, cols),
        forall|j: int| 0 <= j < p.len() ==> update_fits(#[trigger] p[j], g.len(), cols),
        0 <= k < p.len(),
        never_sets(p.skip(k + 1), p[k].row as int, p[k].col as int),
        source_of(p[k]) matches Some(s) ==> s != (p[k].row as int, p[k].col as int) && never_sets(
            p.skip(k + 1),
            s.0,
            s.1,
        ),
    ensures
        ({
            let h = spec_apply_plan(g, p, fx, fl);
            h[p[k].row as int][p[k].col as int] == update_value(h, p[k], fx, fl)
        }),
{
    let u = p[k];
    let a = spec_apply_plan(g, p.take(k), fx, fl);
    let a1 = spec_apply_plan(g, p.take(k + 1), fx, fl);
    let rest = p.skip(k + 1);
    let h = spec_apply_plan(g, p, fx, fl);
    lemma_apply_split(g, p, k + 1, fx, fl);
    lemma_take_step(g, p, k, fx, fl);
    let q = p.take(k + 1);
    assert forall|j: int| 0 <= j < q.len() implies update_fits(#[trigger] q[j], g.len(), cols) by {
        assert(q[j] == p[j]);
    }
    lemma_apply_plan_shape(g, q, cols, fx, fl);
    let qa = p.take(k);
    assert forall|j: int| 0 <= j < qa.len() implies update_fits(#[trigger] qa[j], g.len(), cols) by {
        assert(qa[j] == p[j]);
    }
    lemma_apply_plan_shape(g, qa, cols, fx, fl);
    assert(update_fits(u, g.len(), cols));
    assert(rows_reach(a1, cols)) by {
        assert forall|r: int| 0 <= r < a1.len() implies #[trigger] a1[r].len() >= cols by {
            assert(a1[r].len() == g[r].len());
        }
    }
    assert forall|j: int| 0 <= j < rest.len() implies update_fits(#[trigger] rest[j], a1.len(), cols) by {
        assert(rest[j] == p[j + k + 1]);
    }
    lemma_untouched(a1, rest, cols, u.row as int, u.col as int, fx, fl);
    assert(h[u.row as int][u.col as int] == update_value(a, u, fx, fl));
    if let Some(s) = source_of(u) {
        assert(0 <= s.0 < g.len() && 0 <= s.1 < g[s.0].len());
        lemma_untouched(a1, rest, cols, s.0, s.1, fx, fl);
        assert(a1[s.0][s.1] == a[s.0][s.1]);
        assert(h[s.0][s.1] == a[s.0][s.1]);
    }
}

/// The update that sets cell `j` of the first (`Low`) or last (`High`) row
/// of a grid of `rows` rows in the y pass.
pub open spec fn y_edge_update(kinds: BoundaryKinds2D, rows: nat, j: int, side: Side) -> CellUpdate {
    CellUpdate {
        row: (if side == Side::Low {
            0
        } else {
            rows - 1
        }) as usize,
        col: j as usize,
        axis: Axis::Y,
        side,
        rule: spec_edge_rule(
            if side == Side::Low {
                kinds.y_low
            } else {
                kinds.y_high
            },
            side,
            rows,
        ),
    }
}

/// The update that sets the first (`Low`) or last (`High`) cell of row `r`
/// of a grid of `cols` columns in the x pass.
pub open spec fn x_edge_update(kinds: BoundaryKinds2D, cols: nat, r: int, side: Side) -> CellUpdate {
    CellUpdate {
        row: r as usize,
        col: (if side == Side::Low {
            0
        } else {
            cols - 1
        }) as usize,
        axis: Axis::X,
        side,
        rule: spec_edge_rule(
            if side == Side::Low {
                kinds.x_low
            } else {
                kinds.x_high
            },
            side,
            cols,
        ),
    }
}

/// The cell that update `u` sets holds, in grid `h`, the value that `u`
/// computes from `h`.
pub open spec fn update_holds<T>(
    h: Seq<Seq<T>>,
    u: CellUpdate,
    fx: spec_fn(Axis, Side) -> T,
    fl: spec_fn(Axis, Side, T, bool) -> T,
) -> bool {
    h[u.row as int][u.col as int] == update_value(h, u, fx, fl)
}

/// The demands of the settling law: at least three rows and three columns.
spec fn settle_ok<T>(g: Seq<Seq<T>>, cols: usize) -> bool {
    &&& 3 <= g.len() <= usize::MAX
    &&& cols >= 3
    &&& rows_reach(g, cols as nat)
}

/// A y-update of the in-place plan is the last to set its cell, and nothing
/// after it sets the cell it reads.
proof fn lemma_y_cell_settles<T>(
    g: Seq<Seq<T>>,
    cols: usize,
    kinds: BoundaryKinds2D,
    fx: spec_fn(Axis, Side) -> T,
    fl: spec_fn(Axis, Side, T, bool) -> T,
    j: int,
    side: Side,
)
    requires
        settle_ok(g, cols),
        0 <= j < cols,
    ensures
        update_holds(
            spec_apply_plan(g, spec_plan_2d(g.len(), cols as nat, false, kinds), fx, fl),
            y_edge_update(kinds, g.len(), j, side),
            fx,
            fl,
        ),
{
    let n = g.len() as int;
    let p = spec_plan_2d(g.len(), cols as nat, false, kinds);
    let k = if side == Side::Low {
        2 * n + 2 * j
    } else {
        2 * n + 2 * j + 1
    };
    lemma_plan_2d_covers_boundary(g.len() as usize, cols, false, kinds);
    lemma_edge_rules_read_interior(kinds.y_low, Side::Low, g.len() as usize);
    lemma_edge_rules_read_interior(kinds.y_high, Side::High, g.len() as usize);
    assert(p[k] == y_edge_update(kinds, g.len(), j, side));
    let u = p[k];
    let rest = p.skip(k + 1);
    assert forall|i: int| #![trigger rest[i]] 0 <= i < rest.len() implies !(rest[i].row == u.row
        && rest[i].col == u.col) by {
        assert(rest[i] == p[k + 1 + i]);
    }
    if let Some(src) = source_of(u) {
        assert(0 < src.0 < n - 1);
        assert forall|i: int| #![trigger rest[i]] 0 <= i < rest.len() implies !(rest[i].row
            == src.0 && rest[i].col == src.1) by {
            assert(rest[i] == p[k + 1 + i]);
        }
    }
    lemma_last_write_holds(g, p, cols as nat, k, fx, fl);
}

/// An x-update of an inner row of the in-place plan is the last to set its
/// cell, and nothing after it sets the cell it reads.
proof fn lemma_x_cell_settles<T>(
    g: Seq<Seq<T>>,
    cols: usize,
    kinds: BoundaryKinds2D,
    fx: spec_fn(Axis, Side) -> T,
    fl: spec_fn(Axis, Side, T, bool) -> T,
    r: int,
    side: Side,
)
    requires
        settle_ok(g, cols),
        0 < r < g.len() - 1,
    ensures
        update_holds(
            spec_apply_plan(g, spec_plan_2d(g.len(), cols as nat, false, kinds), fx, fl),
            x_edge_update(kinds, cols as nat, r, side),
            fx,
            fl,
        ),
{
    let n = g.len() as int;
    let p = spec_plan_2d(g.len(), cols as nat, false, kinds);
    let k = if side == Side::Low {
        2 * r
    } else {
        2 * r + 1
    };
    lemma_plan_2d_covers_boundary(g.len() as usize, cols, false, kinds);
    lemma_edge_rules_read_interior(kinds.x_low, Side::Low, cols);
    lemma_edge_rules_read_interior(kinds.x_high, Side::High, cols);
    assert(p[k] == x_edge_update(kinds, cols as nat, r, side));
    let u = p[k];
    let rest = p.skip(k + 1);
    assert forall|i: int| #![trigger rest[i]] 0 <= i < rest.len() implies !(rest[i].row == u.row
        && rest[i].col == u.col) by {
        assert(rest[i] == p[k + 1 + i]);
    }
    if let Some(src) = source_of(u) {
        assert(src.0 == r && 0 < src.1 < cols - 1);
        assert forall|i: int| #![trigger rest[i]] 0 <= i < rest.len() implies !(rest[i].row
            == src.0 && rest[i].col == src.1) by {
            assert(rest[i] == p[k + 1 + i]);
        }
    }
    lemma_last_write_holds(g, p, cols as nat, k, fx, fl);
}

/// After the in-place update of a grid of at least three rows and three
/// columns, every cell of the outer ring satisfies, against the final grid,
/// the rule that set it last: the y-rule in the first and last rows, corners
/// included, and the x-rule at both ends of every row between.  So the
/// boundary conditions hold exactly on the updated grid.
pub proof fn lemma_plan_2d_settles<T>(
    g: Seq<Seq<T>>,
    cols: usize,
    kinds: BoundaryKinds2D,
    fx: spec_fn(Axis, Side) -> T,
    fl: spec_fn(Axis, Side, T, bool) -> T,
)
    requires
        3 <= g.len() <= usize::MAX,
        cols >= 3,
        rows_reach(g, cols as nat),
    ensures
        ({
            let n = g.len();
            let h = spec_apply_plan(g, spec_plan_2d(n, cols as nat, false, kinds), fx, fl);
            &&& forall|j: int|
                0 <= j < cols ==> #[trigger] update_holds(h, y_edge_update(kinds, n, j, Side::Low), fx, fl)
                    && update_holds(h, y_edge_update(kinds, n, j, Side::High), fx, fl)
            &&& forall|r: int|
                0 < r < n - 1 ==> #[trigger] update_holds(h, x_edge_update(kinds, cols as nat, r, Side::Low), fx, fl)
                    && update_holds(h, x_edge_update(kinds, cols as nat, r, Side::High), fx, fl)
        }),
{
    let n = g.len();
    let h = spec_apply_plan(g, spec_plan_2d(n, cols as nat, false, kinds), fx, fl);
    assert forall|j: int| 0 <= j < cols implies #[trigger] update_holds(
        h,
        y_edge_update(kinds, n, j, Side::Low),
        fx,
        fl,
    ) && update_holds(h, y_edge_update(kinds, n, j, Side::High), fx, fl) by {
        lemma_y_cell_settles(g, cols, kinds, fx, fl, j, Side::Low);
        lemma_y_cell_settles(g, cols, kinds, fx, fl, j, Side::High);
    }
    assert forall|r: int| 0 < r < n - 1 implies #[trigger] update_holds(
        h,
        x_edge_update(kinds, cols as nat, r, Side::Low),
        fx,
        fl,
    ) && update_holds(h, x_edge_update(kinds, cols as nat, r, Side::High), fx, fl) by {
        lemma_x_cell_settles(g, cols, kinds, fx, fl, r, Side::Low);
        lemma_x_cell_settles(g, cols, kinds, fx, fl, r, Side::High);
    }
}

/// A boundary plan changes only cells of the outer ring within its `cols`
/// columns: every other cell of the grid, the interior and any cells beyond
/// column `cols`, keeps its value, and the grid keeps its shape.
pub proof fn lemma_plan_2d_keeps_off_ring<T>(
    g: Seq<Seq<T>>,
    cols: usize,
    inner_rows_only: bool,
    kinds: BoundaryKinds2D,
    fx: spec_fn(Axis, Side) -> T,
    fl: spec_fn(Axis, Side, T, bool) -> T,
)
    requires
        g.len() <= usize::MAX,
        plan_2d_shape_ok(g.len(), cols as nat, inner_rows_only, kinds),
        rows_reach(g, cols as nat),
    ensures
        ({
            let h = spec_apply_plan(g, spec_plan_2d(g.len(), cols as nat, inner_rows_only, kinds), fx, fl);
            &&& h.len() == g.len()
            &&& forall|r: int| 0 <= r < g.len() ==> #[trigger] h[r].len() == g[r].len()
            &&& forall|r: int, c: int|
                0 <= r < g.len() && 0 <= c < g[r].len() && !(c < cols && on_boundary(
                    g.len(),
                    cols as nat,
                    r,
                    c,
                )) ==> #[trigger] h[r][c] == g[r][c]
        }),
{
    let p = spec_plan_2d(g.len(), cols as nat, inner_rows_only, kinds);
    lemma_plan_2d_covers_boundary(g.len() as usize, cols, inner_rows_only, kinds);
    assert forall|k: int| 0 <= k < p.len() implies update_fits(#[trigger] p[k], g.len(), cols as nat) by {
    }
    lemma_apply_plan_shape(g, p, cols as nat, fx, fl);
    let h = spec_apply_plan(g, p, fx, fl);
    assert forall|r: int, c: int|
        0 <= r < g.len() && 0 <= c < g[r].len() && !(c < cols && on_boundary(
            g.len(),
            cols as nat,
            r,
            c,
        )) implies #[trigger] h[r][c] == g[r][c] by {
        assert(never_sets(p, r, c));
        lemma_untouched(g, p, cols as nat, r, c, fx, fl);
    }
}

/// A boundary cell holding `cell` meets a condition of `kind`: a Dirichlet
/// cell holds the prescribed value `fixed`, a Neumann cell the value
/// `fluxed` computed from its inner neighbour and its own edge's flux, and a
/// periodic cell the value `wrapped` of the cell next to the opposite edge.
pub open spec fn condition_met<T>(kind: BoundaryKind, cell: T, fixed: T, fluxed: T, wrapped: T) -> bool {
    match kind {
        BoundaryKind::Dirichlet => cell == fixed,
        BoundaryKind::Neumann => cell == fluxed,
        BoundaryKind::Periodic => cell == wrapped,
    }
}

/// Both cells of column `j` on the first and last rows of `h`, a grid of
/// `n` rows, meet the y-conditions, each with its own side's value and flux:
/// `h[0][j]` against `fx(Y, Low)`, `fl(Y, Low, h[1][j], false)` or
/// `h[n-2][j]`; `h[n-1][j]` against `fx(Y, High)`,
/// `fl(Y, High, h[n-2][j], true)` or `h[1][j]`.
pub open spec fn column_ends_met<T>(
    h: Seq<Seq<T>>,
    n: int,
    kinds: BoundaryKinds2D,
    fx: spec_fn(Axis, Side) -> T,
    fl: spec_fn(Axis, Side, T, bool) -> T,
    j: int,
) -> bool {
    &&& condition_met(
        kinds.y_low,
        h[0][j],
        fx(Axis::Y, Side::Low),
        fl(Axis::Y, Side::Low, h[1][j], false),
        h[n - 2][j],
    )
    &&& condition_met(
        kinds.y_high,
        h[n - 1][j],
        fx(Axis::Y, Side::High),
        fl(Axis::Y, Side::High, h[n - 2][j], true),
        h[1][j],
    )
}

/// Both end cells of row `r` of `h`, `c` columns wide, meet the
/// x-conditions, each with its own side's value and flux: `h[r][0]` against
/// `fx(X, Low)`, `fl(X, Low, h[r][1], false)` or `h[r][c-2]`; `h[r][c-1]`
/// against `fx(X, High)`, `fl(X, High, h[r][c-2], true)` or `h[r][1]`.
pub open spec fn row_ends_met<T>(
    h: Seq<Seq<T>>,
    c: int,
    kinds: BoundaryKinds2D,
    fx: spec_fn(Axis, Side) -> T,
    fl: spec_fn(Axis, Side, T, bool) -> T,
    r: int,
) -> bool {
    &&& condition_met(
        kinds.x_low,
        h[r][0],
        fx(Axis::X, Side::Low),
        fl(Axis::X, Side::Low, h[r][1], false),
        h[r][c - 2],
    )
    &&& condition_met(
        kinds.x_high,
        h[r][c - 1],
        fx(Axis::X, Side::High),
        fl(Axis::X, Side::High, h[r][c - 2], true),
        h[r][1],
    )
}

/// After a boundary update of a grid of at least three rows and three
/// columns, with or without a ghost ring, every edge meets its own
/// condition against the final grid, with the value and flux of its own
/// axis and side: the first and last cells of every column by the
/// y-conditions, and the first and last cells of every row between by the
/// x-conditions (a Neumann cell is its inner neighbour less the flux term at
/// a low edge, plus it at a high edge).
pub proof fn lemma_plan_2d_conditions_hold<T>(
    g: Seq<Seq<T>>,
    cols: usize,
    inner_rows_only: bool,
    kinds: BoundaryKinds2D,
    fx: spec_fn(Axis, Side) -> T,
    fl: spec_fn(Axis, Side, T, bool) -> T,
)
    requires
        3 <= g.len() <= usize::MAX,
        cols >= 3,
        rows_reach(g, cols as nat),
    ensures
        forall|j: int|
            0 <= j < cols ==> #[trigger] column_ends_met(
                spec_apply_plan(g, spec_plan_2d(g.len(), cols as nat, inner_rows_only, kinds), fx, fl),
                g.len() as int,
                kinds,
                fx,
                fl,
                j,
            ),
        forall|r: int|
            0 < r < g.len() - 1 ==> #[trigger] row_ends_met(
                spec_apply_plan(g, spec_plan_2d(g.len(), cols as nat, inner_rows_only, kinds), fx, fl),
                cols as int,
                kinds,
                fx,
                fl,
                r,
            ),
{
    if inner_rows_only {
        lemma_plan_2d_inner_rows_agree(g, cols, kinds, fx, fl);
    }
    let hf = spec_apply_plan(g, spec_plan_2d(g.len(), cols as nat, false, kinds), fx, fl);
    let h = spec_apply_plan(g, spec_plan_2d(g.len(), cols as nat, inner_rows_only, kinds), fx, fl);
    assert(h == hf);
    lemma_plan_2d_settles(g, cols, kinds, fx, fl);
    assert forall|j: int| 0 <= j < cols implies #[trigger] column_ends_met(
        h,
        g.len() as int,
        kinds,
        fx,
        fl,
        j,
    ) by {
        assert(update_holds(hf, y_edge_update(kinds, g.len(), j, Side::Low), fx, fl));
        assert(update_holds(hf, y_edge_update(kinds, g.len(), j, Side::High), fx, fl));
    }
    assert forall|r: int| 0 < r < g.len() - 1 implies #[trigger] row_ends_met(
        h,
        cols as int,
        kinds,
        fx,
        fl,
        r,
    ) by {
        assert(update_holds(hf, x_edge_update(kinds, cols as nat, r, Side::Low), fx, fl));
        assert(update_holds(hf, x_edge_update(kinds, cols as nat, r, Side::High), fx, fl));
    }
}

} // verus!
