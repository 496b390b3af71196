//! Discretisation structure for finite-difference PDE solvers: boundary
//! update plans, difference stencils and their exactness, the structure of
//! the implicit heat systems, and the time-stepping and iteration drivers
//! that the numerical solvers run on.

pub mod advection;
pub mod boundary;
pub mod finite_diff;
pub mod heat;
pub mod plan_laws;
pub mod stepping;
pub mod wave;

pub use boundary::{BoundaryKind, BoundaryKinds2D, CellUpdate, EdgeRule, Side};
pub use finite_diff::{FiniteDiff, Stencil, StencilTerm};
pub use heat::HeatMethod;
pub use stepping::{evolve, evolve_two_level, iterate_until, Outcome};
pub use wave::WaveMethod;
