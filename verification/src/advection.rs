//! Upwind differencing for the advection term.

use vstd::prelude::*;
use crate::finite_diff::{Stencil, StencilTerm, term, exact_to_degree, lemma_difference_exact};

verus! {

/// Terms of the upwind difference at interior point `i`: the one-sided
/// difference that reaches back against the flow, `u[i] - u[i-1]` when the
/// velocity is non-negative and `u[i+1] - u[i]` otherwise.
pub open spec fn upwind_terms(i: nat, flow_nonnegative: bool) -> Seq<StencilTerm> {
    if flow_nonnegative {
        seq![term(i as int, 1), term(i - 1, -1)]
    } else {
        seq![term(i as int + 1, 1), term(i as int, -1)]
    }
}

/// The upwind first-difference stencil at interior point `i` of `n` points,
/// for a velocity whose sign is given by `flow_nonnegative`.
pub fn upwind_stencil(n: usize, i: usize, flow_nonnegative: bool) -> (s: Stencil)
    requires
        0 < i,
        i + 1 < n,
    ensures
        s.order == 1,
        s.divisor == 1,
        s.terms@ == upwind_terms(i as nat, flow_nonnegative),
{
    let mut terms: Vec<StencilTerm> = Vec::new();
    if flow_nonnegative {
        terms.push(StencilTerm { index: i, weight: 1 });
        terms.push(StencilTerm { index: i - 1, weight: -1 });
    } else {
        terms.push(StencilTerm { index: i + 1, weight: 1 });
        terms.push(StencilTerm { index: i, weight: -1 });
    }
    assert(terms@ =~= upwind_terms(i as nat, flow_nonnegative));
    Stencil { terms, divisor: 1, order: 1 }
}

/// The upwind difference reads the neighbour on the side the flow comes
/// from, and reproduces the derivative of a linear profile exactly.
pub proof fn lemma_upwind_consistent(n: usize, i: usize, flow_nonnegative: bool)
    requires
        0 < i,
        i + 1 < n,
    ensures
        flow_nonnegative ==> upwind_terms(i as nat, flow_nonnegative)[1].index == i - 1,
        !flow_nonnegative ==> upwind_terms(i as nat, flow_nonnegative)[0].index == i + 1,
        exact_to_degree(upwind_terms(i as nat, flow_nonnegative), i as int, 1, 1, 1),
{
    if flow_nonnegative {
        lemma_difference_exact(i as int, i - 1, i as int);
    } else {
        lemma_difference_exact(i + 1, i as int, i as int);
    }
}

} // verus!
