//! Heat-equation methods, and the structure of the linear systems that the
//! implicit methods solve at each step.

use vstd::prelude::*;
use crate::boundary::{
    spec_apply_edges_1d, spec_edge_rule, Axis, BoundaryKind, Side,
};
use crate::finite_diff::{
    d2_central_terms, d2_interior_sum, lemma_d2_sample_sum, lemma_interior_second_differences_cancel,
    sample_sum,
};

verus! {

/// Time-stepping methods for the heat equation.
#[derive(Clone, Copy, Debug, PartialEq, Eq, Structural)]
pub enum HeatMethod {
    /// Explicit; stable only when the stability parameter r is at most 1/2.
    ForwardEuler,
    /// Implicit; unconditionally stable.
    BackwardEuler,
    /// Implicit, second order in time; unconditionally stable.
    CrankNicolson,
}

impl HeatMethod {
    /// Whether a step is stable, given whether its stability parameter
    /// r = alpha dt / dx^2 meets the explicit bound r <= 1/2: forward Euler
    /// needs the bound, the implicit methods are stable for every step.
    pub fn is_stable_given(&self, explicit_bound_met: bool) -> (stable: bool)
        ensures
            stable == (*self != HeatMethod::ForwardEuler || explicit_bound_met),
    {
        match self {
            HeatMethod::ForwardEuler => explicit_bound_met,
            HeatMethod::BackwardEuler => true,
            HeatMethod::CrankNicolson => true,
        }
    }
}

/// Entry (`i`, `j`) of the second-difference operator over the `ni`
/// interior points once the boundary rule (`edge_rule`) has been
/// substituted for the two boundary cells: -2 on the diagonal, 1 for each
/// interior neighbour, and 1 more where a boundary cell is a copy of an
/// interior cell (a Neumann cell copies its inner neighbour, a periodic cell
/// the interior cell at the other end).
pub open spec fn laplacian_entry(ni: int, left: BoundaryKind, right: BoundaryKind, i: int, j: int) -> int {
    (if i == j {
        -2int
    } else {
        0
    }) + (if j == i - 1 || j == i + 1 {
        1int
    } else {
        0
    }) + (if i == 0 && ((left == BoundaryKind::Neumann && j == 0) || (left == BoundaryKind::Periodic
        && j == ni - 1)) {
        1int
    } else {
        0
    }) + (if i == ni - 1 && ((right == BoundaryKind::Neumann && j == ni - 1) || (right
        == BoundaryKind::Periodic && j == 0)) {
        1int
    } else {
        0
    })
}

/// Entry (`i`, `j`) of the heat system's operator matrix M.  With the
/// parameter s (r for backward Euler, r/2 for Crank-Nicolson) the implicit
/// side is `I - sM` and the explicit side `I + sM`.
pub fn system_entry(ni: usize, left: BoundaryKind, right: BoundaryKind, i: usize, j: usize) -> (m:
    i64)
    requires
        ni >= 1,
        i < ni,
        j < ni,
    ensures
        m == laplacian_entry(ni as int, left, right, i as int, j as int),
{
    let mut m: i64 = 0;
    if i == j {
        m = m - 2;
    }
    if j + 1 == i || j == i + 1 {
        m = m + 1;
    }
    if i == 0 && ((left == BoundaryKind::Neumann && j == 0) || (left == BoundaryKind::Periodic && j
        == ni - 1)) {
        m = m + 1;
    }
    if i == ni - 1 && ((right == BoundaryKind::Neumann && j == ni - 1) || (right
        == BoundaryKind::Periodic && j == 0)) {
        m = m + 1;
    }
    m
}

/// The heat system's operator matrix M over `ni` interior points, row by row.
pub fn system_matrix(ni: usize, left: BoundaryKind, right: BoundaryKind) -> (m: Vec<Vec<i64>>)
    requires
        ni >= 1,
    ensures
        m.len() == ni,
        forall|i: int| 0 <= i < ni ==> #[trigger] m[i].len() == ni,
        forall|i: int, j: int|
            0 <= i < ni && 0 <= j < ni ==> #[trigger] m[i][j] == laplacian_entry(
                ni as int,
                left,
                right,
                i,
                j,
            ),
{
    let mut m: Vec<Vec<i64>> = Vec::new();
    let mut i: usize = 0;
    while i < ni
        invariant
            ni >= 1,
            i <= ni,
            m.len() == i,
            forall|a: int| 0 <= a < i ==> #[trigger] m[a].len() == ni,
            forall|a: int, b: int|
                0 <= a < i && 0 <= b < ni ==> #[trigger] m[a][b] == laplacian_entry(
                    ni as int,
                    left,
                    right,
                    a,
                    b,
                ),
        decreases ni - i,
    {
        let mut row: Vec<i64> = Vec::new();
        let mut j: usize = 0;
        while j < ni
            invariant
                ni >= 1,
                i < ni,
                j <= ni,
                row.len() == j,
                forall|b: int|
                    0 <= b < j ==> #[trigger] row[b] == laplacian_entry(
                        ni as int,
                        left,
                        right,
                        i as int,
                        b,
                    ),
            decreases ni - j,
        {
            row.push(system_entry(ni, left, right, i, j));
            j += 1;
        }
        m.push(row);
        i += 1;
    }
    m
}

/// A boundary contribution to the heat system's right-hand side.  On both
/// sides of the system it adds s times the boundary value (`LeftValue`,
/// `RightValue`), s times the spacing times the flux at the right end
/// (`RightFlux`), or minus that at the left end (`LeftFlux`, the ghost cell
/// there being its neighbour minus the spacing times the flux): the part of
/// the second difference at the interior point beside the boundary that the
/// boundary rule does not tie to an interior cell.
#[derive(Clone, Copy, Debug, PartialEq, Eq, Structural)]
pub enum LoadTerm {
    LeftValue,
    LeftFlux,
    RightValue,
    RightFlux,
}

/// A boundary contribution to entry `index` of the right-hand side.
#[derive(Clone, Copy, Debug, PartialEq, Eq, Structural)]
pub struct Load {
    pub index: usize,
    pub term: LoadTerm,
}

/// The boundary contributions, left boundary first: a Dirichlet or Neumann
/// boundary feeds the interior point next to it; a periodic one feeds none.
pub open spec fn spec_boundary_loads(ni: nat, left: BoundaryKind, right: BoundaryKind) -> Seq<
    Load,
> {
    let l = match left {
        BoundaryKind::Dirichlet => seq![Load { index: 0, term: LoadTerm::LeftValue }],
        BoundaryKind::Neumann => seq![Load { index: 0, term: LoadTerm::LeftFlux }],
        BoundaryKind::Periodic => Seq::empty(),
    };
    let r = match right {
        BoundaryKind::Dirichlet => seq![Load { index: (ni - 1) as usize, term: LoadTerm::RightValue }],
        BoundaryKind::Neumann => seq![Load { index: (ni - 1) as usize, term: LoadTerm::RightFlux }],
        BoundaryKind::Periodic => Seq::empty(),
    };
    l + r
}

/// The boundary contributions to the heat system's right-hand side, in the
/// order in which they are added.
pub fn boundary_loads(ni: usize, left: BoundaryKind, right: BoundaryKind) -> (loads: Vec<Load>)
    requires
        ni >= 1,
    ensures
        loads@ == spec_boundary_loads(ni as nat, left, right),
{
    let mut loads: Vec<Load> = Vec::new();
    match left {
        BoundaryKind::Dirichlet => loads.push(Load { index: 0, term: LoadTerm::LeftValue }),
        BoundaryKind::Neumann => loads.push(Load { index: 0, term: LoadTerm::LeftFlux }),
        BoundaryKind::Periodic => {},
    }
    match right {
        BoundaryKind::Dirichlet => loads.push(Load { index: ni - 1, term: LoadTerm::RightValue }),
        BoundaryKind::Neumann => loads.push(Load { index: ni - 1, term: LoadTerm::RightFlux }),
        BoundaryKind::Periodic => {},
    }
    assert(loads@ =~= spec_boundary_loads(ni as nat, left, right));
    loads
}

/// The value of a load, given the left and right boundary values and the
/// spacing times the left and right fluxes; the left flux enters with a
/// minus sign.
pub open spec fn load_term_value(t: LoadTerm, vl: int, hl: int, vr: int, hr: int) -> int {
    match t {
        LoadTerm::LeftValue => vl,
        LoadTerm::LeftFlux => -hl,
        LoadTerm::RightValue => vr,
        LoadTerm::RightFlux => hr,
    }
}

/// The total of the loads on entry `i`.
pub open spec fn loads_at(loads: Seq<Load>, i: int, vl: int, hl: int, vr: int, hr: int) -> int
    decreases loads.len(),
{
    if loads.len() == 0 {
        0
    } else {
        (if loads[0].index == i {
            load_term_value(loads[0].term, vl, hl, vr, hr)
        } else {
            0
        }) + loads_at(loads.drop_first(), i, vl, hl, vr, hr)
    }
}

/// Row `i` of M applied to the interior cells of the full vector `u`
/// (interior point `j` is `u[j + 1]`), over the first `m` columns.
pub open spec fn row_dot(
    ni: int,
    left: BoundaryKind,
    right: BoundaryKind,
    i: int,
    u: Seq<int>,
    m: nat,
) -> int
    decreases m,
{
    if m == 0 {
        0
    } else {
        row_dot(ni, left, right, i, u, (m - 1) as nat) + laplacian_entry(ni, left, right, i, m - 1)
            * u[m as int]
    }
}

/// The boundary values as the spec functions an edge executor is given: the
/// left and right values, and a Neumann cell as its neighbour plus or minus
/// the spacing times the flux.
pub open spec fn heat_fixed(vl: int, vr: int) -> spec_fn(Axis, Side) -> int {
    |a: Axis, s: Side|
        if s == Side::Low {
            vl
        } else {
            vr
        }
}

/// See `heat_fixed`.
pub open spec fn heat_flux(hl: int, hr: int) -> spec_fn(Axis, Side, int, bool) -> int {
    |a: Axis, s: Side, x: int, add: bool|
        {
            let h = if s == Side::Low {
                hl
            } else {
                hr
            };
            if add {
                x + h
            } else {
                x - h
            }
        }
}

/// The contributions to row `i` of M applied to the first `m` interior
/// points, each counted once its column is reached.
spec fn row_dot_partial(
    ni: int,
    left: BoundaryKind,
    right: BoundaryKind,
    i: int,
    u: Seq<int>,
    m: int,
) -> int {
    (if i < m {
        -2 * u[i + 1]
    } else {
        0
    }) + (if i >= 1 && i - 1 < m {
        u[i]
    } else {
        0
    }) + (if i + 1 < ni && i + 1 < m {
        u[i + 2]
    } else {
        0
    }) + (if i == 0 && left == BoundaryKind::Neumann && 0 < m {
        u[1]
    } else {
        0
    }) + (if i == 0 && left == BoundaryKind::Periodic && ni - 1 < m {
        u[ni]
    } else {
        0
    }) + (if i == ni - 1 && right == BoundaryKind::Neumann && ni - 1 < m {
        u[ni]
    } else {
        0
    }) + (if i == ni - 1 && right == BoundaryKind::Periodic && 0 < m {
        u[1]
    } else {
        0
    })
}

proof fn lemma_entry_times(ni: int, left: BoundaryKind, right: BoundaryKind, i: int, j: int, x: int)
    requires
        0 <= i < ni,
        0 <= j < ni,
    ensures
        laplacian_entry(ni, left, right, i, j) * x == (if i == j {
            -2 * x
        } else {
            0
        }) + (if j == i - 1 || j == i + 1 {
            x
        } else {
            0
        }) + (if i == 0 && ((left == BoundaryKind::Neumann && j == 0) || (left
            == BoundaryKind::Periodic && j == ni - 1)) {
            x
        } else {
            0
        }) + (if i == ni - 1 && ((right == BoundaryKind::Neumann && j == ni - 1) || (right
            == BoundaryKind::Periodic && j == 0)) {
            x
        } else {
            0
        }),
{
    let a: int = if i == j {
        -2
    } else {
        0
    };
    let b: int = if j == i - 1 || j == i + 1 {
        1
    } else {
        0
    };
    let c: int = if i == 0 && ((left == BoundaryKind::Neumann && j == 0) || (left
        == BoundaryKind::Periodic && j == ni - 1)) {
        1
    } else {
        0
    };
    let d: int = if i == ni - 1 && ((right == BoundaryKind::Neumann && j == ni - 1) || (right
        == BoundaryKind::Periodic && j == 0)) {
        1
    } else {
        0
    };
    assert((a + b + c + d) * x == a * x + b * x + c * x + d * x) by (nonlinear_arith);
    assert(a * x == (if i == j {
        -2 * x
    } else {
        0
    })) by (nonlinear_arith)
        requires
            a == (if i == j {
                -2int
            } else {
                0
            }),
    ;
    assert(b * x == (if j == i - 1 || j == i + 1 {
        x
    } else {
        0
    })) by (nonlinear_arith)
        requires
            b == (if j == i - 1 || j == i + 1 {
                1int
            } else {
                0
            }),
    ;
    assert(c == 0 || c == 1);
    assert(d == 0 || d == 1);
    assert(c * x == (if c == 1 {
        x
    } else {
        0
    })) by (nonlinear_arith)
        requires
            c == 0 || c == 1,
    ;
    assert(d * x == (if d == 1 {
        x
    } else {
        0
    })) by (nonlinear_arith)
        requires
            d == 0 || d == 1,
    ;
}

proof fn lemma_row_dot_partial(
    ni: int,
    left: BoundaryKind,
    right: BoundaryKind,
    i: int,
    u: Seq<int>,
    m: nat,
)
    requires
        0 <= i < ni,
        m <= ni,
        u.len() == ni + 2,
    ensures
        row_dot(ni, left, right, i, u, m) == row_dot_partial(ni, left, right, i, u, m as int),
    decreases m,
{
    if m > 0 {
        lemma_row_dot_partial(ni, left, right, i, u, (m - 1) as nat);
        lemma_entry_times(ni, left, right, i, m - 1, u[m as int]);
    }
}

/// The heat system is the second difference with the boundary rule
/// substituted: whatever the vector `w`, once the edge rules of its kinds
/// have set its two boundary cells (Dirichlet values `vl`, `vr`; Neumann
/// fluxes times the spacing `hl`, `hr`), the second difference at each
/// interior point equals row `i` of M applied to the interior cells plus the
/// loads on entry `i`.
pub proof fn lemma_system_is_substituted_stencil(
    ni: nat,
    left: BoundaryKind,
    right: BoundaryKind,
    w: Seq<int>,
    vl: int,
    hl: int,
    vr: int,
    hr: int,
    i: int,
)
    requires
        1 <= ni,
        ni + 2 <= usize::MAX,
        w.len() == ni + 2,
        0 <= i < ni,
    ensures
        ({
            let u = spec_apply_edges_1d(
                w,
                spec_edge_rule(left, Side::Low, ni + 2),
                spec_edge_rule(right, Side::High, ni + 2),
                heat_fixed(vl, vr),
                heat_flux(hl, hr),
            );
            sample_sum(d2_central_terms(ni + 2, (i + 1) as nat), u) == row_dot(
                ni as int,
                left,
                right,
                i,
                u,
                ni,
            ) + loads_at(spec_boundary_loads(ni, left, right), i, vl, hl, vr, hr)
        }),
{
    let n = ni + 2;
    let u = spec_apply_edges_1d(
        w,
        spec_edge_rule(left, Side::Low, n),
        spec_edge_rule(right, Side::High, n),
        heat_fixed(vl, vr),
        heat_flux(hl, hr),
    );
    lemma_d2_sample_sum(u, (i + 1) as nat);
    lemma_row_dot_partial(ni as int, left, right, i, u, ni);
    assert(forall|k: int| 1 <= k <= ni ==> u[k] == w[k]);
    let loads = spec_boundary_loads(ni, left, right);
    reveal_with_fuel(loads_at, 3);
    if loads.len() >= 1 {
        assert(loads.drop_first().len() == loads.len() - 1);
    }
    if loads.len() == 2 {
        assert(loads.drop_first().drop_first() =~= Seq::<Load>::empty());
    }
}

/// The matrix M is symmetric whenever the two boundaries agree on being
/// periodic.
pub proof fn lemma_system_symmetric(ni: int, left: BoundaryKind, right: BoundaryKind)
    requires
        ni >= 1,
        (left == BoundaryKind::Periodic) == (right == BoundaryKind::Periodic),
    ensures
        forall|i: int, j: int|
            0 <= i < ni && 0 <= j < ni ==> #[trigger] laplacian_entry(ni, left, right, i, j)
                == laplacian_entry(ni, left, right, j, i),
{
}

/// The matrix M is zero off its three central diagonals, except in the
/// corner that a periodic boundary wraps around to.
pub proof fn lemma_system_banded(ni: int, left: BoundaryKind, right: BoundaryKind)
    requires
        ni >= 1,
    ensures
        forall|i: int, j: int|
            0 <= i < ni && 0 <= j < ni && #[trigger] laplacian_entry(ni, left, right, i, j) != 0
                ==> {
                ||| -1 <= i - j <= 1
                ||| i == 0 && j == ni - 1 && left == BoundaryKind::Periodic
                ||| i == ni - 1 && j == 0 && right == BoundaryKind::Periodic
            },
{
}

/// The row sums of M: zero, except that each Dirichlet boundary beside row
/// `i` takes one off (its value arrives through the loads instead).  So
/// with zero-flux Neumann or periodic boundaries a constant state is a fixed
/// point of both sides of the system, for every number of interior points.
pub proof fn lemma_system_rows_balance(ni: nat, left: BoundaryKind, right: BoundaryKind, i: int)
    requires
        ni >= 1,
        0 <= i < ni,
    ensures
        row_dot(ni as int, left, right, i, Seq::new(ni + 2, |k: int| 1int), ni) == -((if i == 0
            && left == BoundaryKind::Dirichlet {
            1int
        } else {
            0
        }) + (if i == ni - 1 && right == BoundaryKind::Dirichlet {
            1int
        } else {
            0
        })),
{
    lemma_row_dot_partial(ni as int, left, right, i, Seq::new(ni + 2, |k: int| 1int), ni);
}

/// The sum of the entries of M applied to the interior cells of `u`, over
/// rows 0 to `m - 1`.
pub open spec fn row_total(ni: nat, left: BoundaryKind, right: BoundaryKind, u: Seq<int>, m: nat) -> int
    decreases m,
{
    if m == 0 {
        0
    } else {
        row_total(ni, left, right, u, (m - 1) as nat) + row_dot(ni as int, left, right, m - 1, u, ni)
    }
}

/// With every boundary value and flux zero, the loads add nothing.
proof fn lemma_loads_vanish(loads: Seq<Load>, i: int)
    ensures
        loads_at(loads, i, 0, 0, 0, 0) == 0,
    decreases loads.len(),
{
    if loads.len() > 0 {
        lemma_loads_vanish(loads.drop_first(), i);
    }
}

/// A row of M reads only the interior cells of the vector it is applied to.
proof fn lemma_row_dot_reads_interior(
    ni: nat,
    left: BoundaryKind,
    right: BoundaryKind,
    i: int,
    u: Seq<int>,
    v: Seq<int>,
)
    requires
        ni >= 1,
        0 <= i < ni,
        u.len() == ni + 2,
        v.len() == ni + 2,
        forall|k: int| 1 <= k <= ni ==> u[k] == v[k],
    ensures
        row_dot(ni as int, left, right, i, u, ni) == row_dot(ni as int, left, right, i, v, ni),
{
    lemma_row_dot_partial(ni as int, left, right, i, u, ni);
    lemma_row_dot_partial(ni as int, left, right, i, v, ni);
}

/// `u` with its boundary cells set by the edge rules of its kinds, every
/// boundary value and flux being zero.
spec fn with_zero_edges(ni: nat, left: BoundaryKind, right: BoundaryKind, u: Seq<int>) -> Seq<int> {
    spec_apply_edges_1d(
        u,
        spec_edge_rule(left, Side::Low, ni + 2),
        spec_edge_rule(right, Side::High, ni + 2),
        heat_fixed(0, 0),
        heat_flux(0, 0),
    )
}

/// Row by row, M applied to `u` adds up to the second differences of `u`
/// with zero boundary data.
proof fn lemma_row_total_is_second_differences(
    ni: nat,
    left: BoundaryKind,
    right: BoundaryKind,
    u: Seq<int>,
    m: nat,
)
    requires
        1 <= ni,
        ni + 2 <= usize::MAX,
        u.len() == ni + 2,
        m <= ni,
    ensures
        row_total(ni, left, right, u, m) == d2_interior_sum(with_zero_edges(ni, left, right, u), m),
    decreases m,
{
    if m > 0 {
        let w = with_zero_edges(ni, left, right, u);
        lemma_row_total_is_second_differences(ni, left, right, u, (m - 1) as nat);
        lemma_system_is_substituted_stencil(ni, left, right, u, 0, 0, 0, 0, m - 1);
        lemma_loads_vanish(spec_boundary_loads(ni, left, right), m - 1);
        assert(forall|k: int| 1 <= k <= ni ==> w[k] == u[k]);
        lemma_row_dot_reads_interior(ni, left, right, m - 1, w, u);
    }
}

/// The heat operator conserves mass when no boundary lets any through: with
/// both ends periodic, or both ends Neumann, the entries of M applied to any
/// vector sum to zero.
pub proof fn lemma_system_conserves_mass(ni: nat, left: BoundaryKind, right: BoundaryKind, u: Seq<int>)
    requires
        1 <= ni,
        ni + 2 <= usize::MAX,
        u.len() == ni + 2,
        (left == BoundaryKind::Periodic && right == BoundaryKind::Periodic) || (left
            == BoundaryKind::Neumann && right == BoundaryKind::Neumann),
    ensures
        row_total(ni, left, right, u, ni) == 0,
{
    let w = with_zero_edges(ni, left, right, u);
    let n = ni + 2;
    lemma_row_total_is_second_differences(ni, left, right, u, ni);
    assert(w[n - 2] == u[n - 2] && w[1] == u[1]);
    lemma_interior_second_differences_cancel(w);
}

} // verus!
