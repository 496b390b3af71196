//! Wave-equation methods.

use vstd::prelude::*;

verus! {

/// Time-stepping methods for the wave equation.
#[derive(Clone, Copy, Debug, PartialEq, Eq, Structural)]
pub enum WaveMethod {
    /// Leapfrog: central differences in both time and space.
    Leapfrog,
    /// Leapfrog with a small added dissipation.
    LaxWendroff,
}

} // verus!
