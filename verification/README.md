# lau_numerical_pde

Finite-difference PDE solvers (heat, wave, Poisson, advection-diffusion,
agent-field diffusion) split into two crates:

- `src/` — the verified library. It holds everything in the solvers that is
  not floating-point arithmetic:
  - `finite_diff`: the integer stencils of every difference operator, and
    proofs that each is exact on polynomials up to its order of accuracy
    (moment conditions), and that interior second differences cancel under
    wrapped or mirrored ends;
  - `boundary`: boundary conditions as index rules (which cell a Neumann or
    periodic boundary reads), the ordered update plan for 2D grids, and the
    generic executors that carry out the rules on a vector and a plan on a
    grid, with the value of each edge supplied by the caller, and the copy
    of a vector or grid into one with a ring of ghost cells; proofs that a
    plan sets exactly the outer ring, that y-edges win the corners, and that
    the ends of a vector, once set, satisfy their rules;
  - `plan_laws`: a plan changes no cell off the ring; on three or more
    rows, the plan for a grid with a ghost ring and the in-place plan end in
    the same grid; on three or more rows and columns, every ring cell of the
    updated grid satisfies the rule that set it last;
  - `heat`: the heat methods and the operator matrix of the heat systems
    with the boundary rule substituted, and its boundary loads, with proofs
    that operator plus loads is the second difference after the edge rules,
    of symmetry, bandedness and row balance, and that with two periodic or
    two Neumann ends the operator conserves mass;
  - `advection`: the upwind stencil;
  - `stepping`: the time-stepping and iterate-to-tolerance drivers, with a
    model of the iteration's outcome and the proof that a converged
    iteration's sweep count does not depend on the budget.
- `app/` — the numerical solvers themselves (`f64` arithmetic, `nalgebra`
  LU solves, `serde` derives), evaluating the library's stencils, rules,
  plans, matrices and drivers.
