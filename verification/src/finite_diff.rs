//! Difference stencils of the finite-difference operators, and the
//! polynomial exactness that gives each operator its order of accuracy.

use vstd::prelude::*;

verus! {

/// One sample of a stencil: `weight` times the value at `index`.
#[derive(Clone, Copy, Debug, PartialEq, Eq, Structural)]
pub struct StencilTerm {
    pub index: usize,
    pub weight: i64,
}

/// A difference quotient on uniformly spaced samples `u`:
/// (sum of `weight * u[index]` over `terms`, in order) / (`divisor` * h^`order`),
/// where h is the grid spacing.  An empty stencil stands for the value zero.
#[derive(Debug)]
pub struct Stencil {
    pub terms: Vec<StencilTerm>,
    pub divisor: u64,
    pub order: u32,
}

/// The term `w * u[i]`.
pub open spec fn term(i: int, w: int) -> StencilTerm {
    StencilTerm { index: i as usize, weight: w as i64 }
}

/// `b` to the power `e`.
pub open spec fn ipow(b: int, e: nat) -> int
    decreases e,
{
    if e == 0 {
        1
    } else {
        b * ipow(b, (e - 1) as nat)
    }
}

/// `n!`.
pub open spec fn factorial(n: nat) -> nat
    decreases n,
{
    if n == 0 {
        1
    } else {
        n * factorial((n - 1) as nat)
    }
}

/// The `k`-th moment of a stencil about `center`: the sum of
/// `weight * (index - center)^k` over its terms.
pub open spec fn moment(terms: Seq<StencilTerm>, center: int, k: nat) -> int
    decreases terms.len(),
{
    if terms.len() == 0 {
        0
    } else {
        terms[0].weight * ipow(terms[0].index - center, k) + moment(terms.drop_first(), center, k)
    }
}

/// The stencil reproduces the `order`-th derivative at `center` exactly (up
/// to the factor `divisor`, in index units) on every polynomial of degree at
/// most `degree`: its moments about `center` vanish up to `degree`, except
/// the `order`-th, which is `order! * divisor`.
pub open spec fn exact_to_degree(
    terms: Seq<StencilTerm>,
    center: int,
    order: nat,
    divisor: nat,
    degree: nat,
) -> bool {
    forall|k: nat|
        k <= degree ==> #[trigger] moment(terms, center, k) == (if k == order {
            factorial(order) * divisor
        } else {
            0
        })
}

/// Number of interior points of an axis with `n` points (zero when `n < 2`).
pub open spec fn spec_interior_count(n: nat) -> nat {
    if n >= 2 {
        (n - 2) as nat
    } else {
        0
    }
}

/// Number of interior points of an axis with `n` points, boundaries excluded.
pub fn interior_count(n: usize) -> (m: usize)
    ensures
        m == spec_interior_count(n as nat),
{
    n.saturating_sub(2)
}

/// Terms of the first-derivative central stencil at `i` of `n` points.
pub open spec fn d1_central_terms(n: nat, i: nat) -> Seq<StencilTerm> {
    if i == 0 {
        seq![term(1, 1), term(0, -1)]
    } else if i == n - 1 {
        seq![term(n - 1, 1), term(n - 2, -1)]
    } else {
        seq![term(i as int + 1, 1), term(i - 1, -1)]
    }
}

/// Divisor of the first-derivative central stencil at `i` of `n` points.
pub open spec fn d1_central_divisor(n: nat, i: nat) -> nat {
    if 0 < i < n - 1 {
        2
    } else {
        1
    }
}

/// Terms of the forward-difference stencil at `i` of `n` points.
pub open spec fn d1_forward_terms(n: nat, i: nat) -> Seq<StencilTerm> {
    if i < n - 1 {
        seq![term(i as int + 1, 1), term(i as int, -1)]
    } else {
        seq![term(n - 1, 1), term(n - 2, -1)]
    }
}

/// Terms of the backward-difference stencil at `i` of `n` points.
pub open spec fn d1_backward_terms(n: nat, i: nat) -> Seq<StencilTerm> {
    if i > 0 {
        seq![term(i as int, 1), term(i - 1, -1)]
    } else {
        seq![term(1, 1), term(0, -1)]
    }
}

/// Terms of the second-order second-derivative stencil at `i` of `n` points.
pub open spec fn d2_central_terms(n: nat, i: nat) -> Seq<StencilTerm> {
    if 0 < i < n - 1 {
        seq![term(i as int + 1, 1), term(i as int, -2), term(i - 1, 1)]
    } else {
        Seq::empty()
    }
}

/// Terms of the fourth-order second-derivative stencil at `i` of `n` points.
pub open spec fn d2_central_4th_terms(n: nat, i: nat) -> Seq<StencilTerm> {
    if 2 <= i < n - 2 {
        seq![term(i as int + 2, -1), term(i as int + 1, 16), term(i as int, -30), term(i - 1, 16), term(i - 2, -1)]
    } else {
        Seq::empty()
    }
}

/// Divisor of the fourth-order second-derivative stencil at `i` of `n` points.
pub open spec fn d2_central_4th_divisor(n: nat, i: nat) -> nat {
    if 2 <= i < n - 2 {
        12
    } else {
        1
    }
}

/// Two-term stencil `u[hi] - u[lo]`.
fn difference(hi: usize, lo: usize, divisor: u64) -> (s: Stencil)
    ensures
        s.terms@ == seq![term(hi as int, 1), term(lo as int, -1)],
        s.divisor == divisor,
        s.order == 1,
{
    let mut terms: Vec<StencilTerm> = Vec::new();
    terms.push(StencilTerm { index: hi, weight: 1 });
    terms.push(StencilTerm { index: lo, weight: -1 });
    assert(terms@ =~= seq![term(hi as int, 1), term(lo as int, -1)]);
    Stencil { terms, divisor, order: 1 }
}

/// The stencil that is zero.
fn zero_stencil(order: u32) -> (s: Stencil)
    ensures
        s.terms@ == Seq::<StencilTerm>::empty(),
        s.divisor == 1,
        s.order == order,
{
    Stencil { terms: Vec::new(), divisor: 1, order }
}

/// Finite difference operators on uniform grids, given by the stencil that
/// each applies at each sample index.
pub struct FiniteDiff;

impl FiniteDiff {
    /// First derivative by central differences, `(u[i+1] - u[i-1]) / 2h`,
    /// with one-sided differences at the two ends.
    pub fn d1_central_stencil(n: usize, i: usize) -> (s: Stencil)
        requires
            n >= 3,
            i < n,
        ensures
            s.order == 1,
            s.terms@ == d1_central_terms(n as nat, i as nat),
            s.divisor == d1_central_divisor(n as nat, i as nat),
    {
        if i == 0 {
            difference(1, 0, 1)
        } else if i == n - 1 {
            difference(n - 1, n - 2, 1)
        } else {
            difference(i + 1, i - 1, 2)
        }
    }

    /// First derivative by forward differences, `(u[i+1] - u[i]) / h`; the
    /// last point repeats the value of the one before it.
    pub fn d1_forward_stencil(n: usize, i: usize) -> (s: Stencil)
        requires
            n >= 2,
            i < n,
        ensures
            s.order == 1,
            s.divisor == 1,
            s.terms@ == d1_forward_terms(n as nat, i as nat),
    {
        if i < n - 1 {
            difference(i + 1, i, 1)
        } else {
            difference(n - 1, n - 2, 1)
        }
    }

    /// First derivative by backward differences, `(u[i] - u[i-1]) / h`; the
    /// first point repeats the value of the one after it.
    pub fn d1_backward_stencil(n: usize, i: usize) -> (s: Stencil)
        requires
            n >= 2,
            i < n,
        ensures
            s.order == 1,
            s.divisor == 1,
            s.terms@ == d1_backward_terms(n as nat, i as nat),
    {
        if i > 0 {
            difference(i, i - 1, 1)
        } else {
            difference(1, 0, 1)
        }
    }

    /// Second derivative by central differences,
    /// `(u[i+1] - 2u[i] + u[i-1]) / h^2`, zero at the two ends.
    pub fn d2_central_stencil(n: usize, i: usize) -> (s: Stencil)
        requires
            n >= 3,
            i < n,
        ensures
            s.order == 2,
            s.divisor == 1,
            s.terms@ == d2_central_terms(n as nat, i as nat),
    {
        if 0 < i && i < n - 1 {
            let mut terms: Vec<StencilTerm> = Vec::new();
            terms.push(StencilTerm { index: i + 1, weight: 1 });
            terms.push(StencilTerm { index: i, weight: -2 });
            terms.push(StencilTerm { index: i - 1, weight: 1 });
            assert(terms@ =~= seq![term(i + 1, 1), term(i as int, -2), term(i - 1, 1)]);
            Stencil { terms, divisor: 1, order: 2 }
        } else {
            zero_stencil(2)
        }
    }

    /// Fourth-order second derivative,
    /// `(-u[i+2] + 16u[i+1] - 30u[i] + 16u[i-1] - u[i-2]) / 12h^2`, zero on
    /// the two points nearest each end.
    pub fn d2_central_4th_stencil(n: usize, i: usize) -> (s: Stencil)
        requires
            n >= 5,
            i < n,
        ensures
            s.order == 2,
            s.divisor == d2_central_4th_divisor(n as nat, i as nat),
            s.terms@ == d2_central_4th_terms(n as nat, i as nat),
    {
        if 2 <= i && i < n - 2 {
            let mut terms: Vec<StencilTerm> = Vec::new();
            terms.push(StencilTerm { index: i + 2, weight: -1 });
            terms.push(StencilTerm { index: i + 1, weight: 16 });
            terms.push(StencilTerm { index: i, weight: -30 });
            terms.push(StencilTerm { index: i - 1, weight: 16 });
            terms.push(StencilTerm { index: i - 2, weight: -1 });
            assert(terms@ =~= seq![
                term(i + 2, -1),
                term(i + 1, 16),
                term(i as int, -30),
                term(i - 1, 16),
                term(i - 2, -1),
            ]);
            Stencil { terms, divisor: 12, order: 2 }
        } else {
            zero_stencil(2)
        }
    }
}

/// Moments of a two-term difference `u[hi] - u[lo]` about `c`.
proof fn lemma_difference_moments(hi: int, lo: int, c: int)
    ensures
        moment(seq![term(hi, 1), term(lo, -1)], c, 0) == 0,
        0 <= hi <= usize::MAX && 0 <= lo <= usize::MAX ==> moment(
            seq![term(hi, 1), term(lo, -1)],
            c,
            1,
        ) == hi - lo,
        0 <= hi <= usize::MAX && 0 <= lo <= usize::MAX ==> moment(
            seq![term(hi, 1), term(lo, -1)],
            c,
            2,
        ) == (hi - c) * (hi - c) - (lo - c) * (lo - c),
{
    let t = seq![term(hi, 1), term(lo, -1)];
    let t1 = t.drop_first();
    assert(t1 =~= seq![term(lo, -1)]);
    assert(t1.drop_first() =~= Seq::<StencilTerm>::empty());
    assert(t[0].weight == 1 && t[1].weight == -1 && t1[0] == t[1]);
    assert(ipow(hi - c, 0) == 1 && ipow(lo - c, 0) == 1);
    assert(ipow(hi - c, 1) == hi - c) by {
        reveal_with_fuel(ipow, 2);
    }
    assert(ipow(lo - c, 1) == lo - c) by {
        reveal_with_fuel(ipow, 2);
    }
    assert(ipow(hi - c, 2) == (hi - c) * (hi - c)) by {
        reveal_with_fuel(ipow, 3);
    }
    assert(ipow(lo - c, 2) == (lo - c) * (lo - c)) by {
        reveal_with_fuel(ipow, 3);
    }
    let k0: nat = 0;
    let k1: nat = 1;
    let k2: nat = 2;
    lemma_moment_cons(t, c, k0);
    lemma_moment_cons(t1, c, k0);
    lemma_moment_cons(t, c, k1);
    lemma_moment_cons(t1, c, k1);
    lemma_moment_cons(t, c, k2);
    lemma_moment_cons(t1, c, k2);
    assert(moment(t1.drop_first(), c, k0) == 0 && moment(t1.drop_first(), c, k1) == 0 && moment(
        t1.drop_first(),
        c,
        k2,
    ) == 0);
    if 0 <= hi <= usize::MAX && 0 <= lo <= usize::MAX {
        assert(t[0].index == hi && t[1].index == lo);
    }
}

/// The two-term difference `u[hi] - u[lo]` is exact on linear functions,
/// with divisor `hi - lo`; about the midpoint it is exact on quadratics too.
pub proof fn lemma_difference_exact(hi: int, lo: int, c: int)
    requires
        0 <= lo <= hi <= usize::MAX,
        hi > lo,
    ensures
        exact_to_degree(seq![term(hi, 1), term(lo, -1)], c, 1, (hi - lo) as nat, 1),
        hi - c == c - lo ==> exact_to_degree(
            seq![term(hi, 1), term(lo, -1)],
            c,
            1,
            (hi - lo) as nat,
            2,
        ),
{
    lemma_difference_moments(hi, lo, c);
    reveal_with_fuel(factorial, 2);
    assert(factorial(1) == 1);
    if hi - c == c - lo {
        assert((hi - c) * (hi - c) - (lo - c) * (lo - c) == 0) by (nonlinear_arith)
            requires
                hi - c == c - lo,
        ;
    }
}

/// Every first-difference stencil reproduces the derivative of a linear
/// function exactly; at interior points the central stencil reproduces the
/// derivative of a quadratic exactly (second-order accuracy).
pub proof fn lemma_d1_stencils_exact(n: usize, i: usize)
    requires
        n >= 3,
        i < n,
    ensures
        exact_to_degree(
            d1_central_terms(n as nat, i as nat),
            i as int,
            1,
            d1_central_divisor(n as nat, i as nat),
            1,
        ),
        0 < i < n - 1 ==> exact_to_degree(d1_central_terms(n as nat, i as nat), i as int, 1, 2, 2),
        exact_to_degree(d1_forward_terms(n as nat, i as nat), i as int, 1, 1, 1),
        exact_to_degree(d1_backward_terms(n as nat, i as nat), i as int, 1, 1, 1),
{
    if i == 0 {
        lemma_difference_exact(1, 0, i as int);
    } else if i == n - 1 {
        lemma_difference_exact(n - 1, n - 2, i as int);
    } else {
        lemma_difference_exact(i + 1, i - 1, i as int);
    }
    if i < n - 1 {
        lemma_difference_exact(i + 1, i as int, i as int);
    } else {
        lemma_difference_exact(n - 1, n - 2, i as int);
    }
    if i > 0 {
        lemma_difference_exact(i as int, i - 1, i as int);
    } else {
        lemma_difference_exact(1, 0, i as int);
    }
}

/// Moment of a stencil given by its first term and the rest.
proof fn lemma_moment_cons(t: Seq<StencilTerm>, center: int, k: nat)
    requires
        t.len() > 0,
    ensures
        moment(t, center, k) == t[0].weight * ipow(t[0].index - center, k) + moment(
            t.drop_first(),
            center,
            k,
        ),
{
}

/// Small powers of small integers.
proof fn lemma_small_powers()
    ensures
        ipow(0, 0) == 1,
        forall|k: nat| 1 <= k <= 5 ==> #[trigger] ipow(0, k) == 0,
        forall|k: nat| k <= 5 ==> #[trigger] ipow(1, k) == 1,
        ipow(-1, 0) == 1 && ipow(-1, 1) == -1 && ipow(-1, 2) == 1 && ipow(-1, 3) == -1 && ipow(-1, 4)
            == 1 && ipow(-1, 5) == -1,
        ipow(2, 0) == 1 && ipow(2, 1) == 2 && ipow(2, 2) == 4 && ipow(2, 3) == 8 && ipow(2, 4) == 16
            && ipow(2, 5) == 32,
        ipow(-2, 0) == 1 && ipow(-2, 1) == -2 && ipow(-2, 2) == 4 && ipow(-2, 3) == -8 && ipow(-2, 4)
            == 16 && ipow(-2, 5) == -32,
{
    reveal_with_fuel(ipow, 6);
    assert forall|k: nat| 1 <= k <= 5 implies #[trigger] ipow(0, k) == 0 by {
        reveal_with_fuel(ipow, 6);
    }
    assert forall|k: nat| k <= 5 implies #[trigger] ipow(1, k) == 1 by {
        reveal_with_fuel(ipow, 6);
    }
}

/// At interior points the three-point second difference reproduces the
/// second derivative of every cubic exactly (second-order accuracy).
pub proof fn lemma_d2_central_exact(n: usize, i: usize)
    requires
        n >= 3,
        0 < i < n - 1,
    ensures
        exact_to_degree(d2_central_terms(n as nat, i as nat), i as int, 2, 1, 3),
{
    let t = d2_central_terms(n as nat, i as nat);
    let c = i as int;
    lemma_small_powers();
    reveal_with_fuel(factorial, 3);
    assert(factorial(2) == 2);
    assert(t[0].index - c == 1 && t[1].index - c == 0 && t[2].index - c == -1);
    assert(t[0].weight == 1 && t[1].weight == -2 && t[2].weight == 1);
    assert forall|k: nat| k <= 3 implies #[trigger] moment(t, c, k) == (if k == 2 {
        factorial(2) * 1
    } else {
        0
    }) by {
        lemma_moment_cons(t, c, k);
        lemma_moment_cons(t.drop_first(), c, k);
        lemma_moment_cons(t.drop_first().drop_first(), c, k);
        assert(t.drop_first().drop_first().drop_first() =~= Seq::<StencilTerm>::empty());
        assert(t.drop_first()[0] == t[1] && t.drop_first().drop_first()[0] == t[2]);
    }
}

/// Moment of a five-term stencil, term by term.
proof fn lemma_five_term_moment(t: Seq<StencilTerm>, c: int, k: nat)
    requires
        t.len() == 5,
    ensures
        moment(t, c, k) == t[0].weight * ipow(t[0].index - c, k) + t[1].weight * ipow(
            t[1].index - c,
            k,
        ) + t[2].weight * ipow(t[2].index - c, k) + t[3].weight * ipow(t[3].index - c, k)
            + t[4].weight * ipow(t[4].index - c, k),
{
    let t1 = t.drop_first();
    let t2 = t1.drop_first();
    let t3 = t2.drop_first();
    let t4 = t3.drop_first();
    lemma_moment_cons(t, c, k);
    lemma_moment_cons(t1, c, k);
    lemma_moment_cons(t2, c, k);
    lemma_moment_cons(t3, c, k);
    lemma_moment_cons(t4, c, k);
    assert(t4.drop_first() =~= Seq::<StencilTerm>::empty());
    assert(t1[0] == t[1] && t2[0] == t[2] && t3[0] == t[3] && t4[0] == t[4]);
}

/// At interior points the five-point fourth-order second difference
/// reproduces the second derivative of every polynomial of degree five or
/// less exactly (fourth-order accuracy).
pub proof fn lemma_d2_central_4th_exact(n: usize, i: usize)
    requires
        n >= 5,
        2 <= i < n - 2,
    ensures
        exact_to_degree(d2_central_4th_terms(n as nat, i as nat), i as int, 2, 12, 5),
{
    let t = d2_central_4th_terms(n as nat, i as nat);
    let c = i as int;
    lemma_small_powers();
    reveal_with_fuel(factorial, 3);
    assert(factorial(2) == 2);
    assert(t[0].index - c == 2 && t[1].index - c == 1 && t[2].index - c == 0 && t[3].index - c
        == -1 && t[4].index - c == -2);
    assert(t[0].weight == -1 && t[1].weight == 16 && t[2].weight == -30 && t[3].weight == 16
        && t[4].weight == -1);
    assert forall|k: nat| k <= 5 implies #[trigger] moment(t, c, k) == (if k == 2 {
        factorial(2) * 12
    } else {
        0
    }) by {
        lemma_five_term_moment(t, c, k);
        let p2 = ipow(t[0].index - c, k);
        let p1 = ipow(t[1].index - c, k);
        let p0 = ipow(t[2].index - c, k);
        let m1 = ipow(t[3].index - c, k);
        let m2 = ipow(t[4].index - c, k);
        assert(p2 == ipow(2, k) && p1 == ipow(1, k) && p0 == ipow(0, k) && m1 == ipow(-1, k) && m2
            == ipow(-2, k));
        assert(moment(t, c, k) == -p2 + 16 * p1 - 30 * p0 + 16 * m1 - m2);
    }
}

/// Value at `x` of the polynomial with coefficients `a`, `a[k]` multiplying
/// `x^k`.
pub open spec fn poly_eval(a: Seq<int>, x: int) -> int
    decreases a.len(),
{
    if a.len() == 0 {
        0
    } else {
        poly_eval(a.drop_last(), x) + a.last() * ipow(x, (a.len() - 1) as nat)
    }
}

/// The stencil's weighted sum over samples of a polynomial: sample `k` is
/// the polynomial `a`, written in powers of `k - center`, evaluated at `k`.
pub open spec fn apply_to_poly(terms: Seq<StencilTerm>, center: int, a: Seq<int>) -> int
    decreases terms.len(),
{
    if terms.len() == 0 {
        0
    } else {
        terms[0].weight * poly_eval(a, terms[0].index - center) + apply_to_poly(
            terms.drop_first(),
            center,
            a,
        )
    }
}

/// The sum of `a[k]` times the `k`-th moment of the stencil.
pub open spec fn weighted_moments(terms: Seq<StencilTerm>, center: int, a: Seq<int>) -> int
    decreases a.len(),
{
    if a.len() == 0 {
        0
    } else {
        weighted_moments(terms, center, a.drop_last()) + a.last() * moment(
            terms,
            center,
            (a.len() - 1) as nat,
        )
    }
}

/// A stencil applied to the zero polynomial gives zero.
proof fn lemma_apply_to_empty_poly(terms: Seq<StencilTerm>, center: int)
    ensures
        apply_to_poly(terms, center, Seq::empty()) == 0,
    decreases terms.len(),
{
    if terms.len() > 0 {
        lemma_apply_to_empty_poly(terms.drop_first(), center);
    }
}

/// Adding the top coefficient of a polynomial adds that coefficient times
/// the matching moment.
proof fn lemma_apply_to_poly_top(terms: Seq<StencilTerm>, center: int, a: Seq<int>)
    requires
        a.len() > 0,
    ensures
        apply_to_poly(terms, center, a) == apply_to_poly(terms, center, a.drop_last()) + a.last()
            * moment(terms, center, (a.len() - 1) as nat),
    decreases terms.len(),
{
    if terms.len() > 0 {
        let rest = terms.drop_first();
        let n = (a.len() - 1) as nat;
        lemma_apply_to_poly_top(rest, center, a);
        let w = terms[0].weight as int;
        let x = terms[0].index - center;
        let p = poly_eval(a.drop_last(), x);
        let q = ipow(x, n);
        let b = a.last();
        assert(poly_eval(a, x) == p + b * q);
        assert(w * (p + b * q) == w * p + b * (w * q)) by (nonlinear_arith);
        assert(b * (w * q) + b * moment(rest, center, n) == b * (w * q + moment(rest, center, n)))
            by (nonlinear_arith);
    }
}

/// A stencil applied to a polynomial gives the coefficients weighted by the
/// stencil's moments.
proof fn lemma_apply_is_weighted_moments(terms: Seq<StencilTerm>, center: int, a: Seq<int>)
    ensures
        apply_to_poly(terms, center, a) == weighted_moments(terms, center, a),
    decreases a.len(),
{
    if a.len() == 0 {
        assert(a =~= Seq::<int>::empty());
        lemma_apply_to_empty_poly(terms, center);
    } else {
        lemma_apply_to_poly_top(terms, center, a);
        lemma_apply_is_weighted_moments(terms, center, a.drop_last());
    }
}

/// Under exactness, the weighted moments pick out one coefficient.
proof fn lemma_weighted_moments_exact(
    terms: Seq<StencilTerm>,
    center: int,
    order: nat,
    divisor: nat,
    degree: nat,
    a: Seq<int>,
)
    requires
        exact_to_degree(terms, center, order, divisor, degree),
        a.len() <= degree + 1,
    ensures
        weighted_moments(terms, center, a) == (if order < a.len() {
            a[order as int] * (factorial(order) * divisor)
        } else {
            0
        }),
    decreases a.len(),
{
    if a.len() > 0 {
        let n = (a.len() - 1) as nat;
        lemma_weighted_moments_exact(terms, center, order, divisor, degree, a.drop_last());
        assert(moment(terms, center, n) == (if n == order {
            factorial(order) * divisor
        } else {
            0
        }));
    }
}

/// A stencil that is exact to degree `degree` returns, on the samples of
/// every polynomial of that degree or less, `divisor` times the polynomial's
/// `order`-th derivative at `center` (index units): with the polynomial
/// written in powers of `k - center`, that is `order!` times its `order`-th
/// coefficient.
pub proof fn lemma_exact_stencil_on_polynomials(
    terms: Seq<StencilTerm>,
    center: int,
    order: nat,
    divisor: nat,
    degree: nat,
    a: Seq<int>,
)
    requires
        exact_to_degree(terms, center, order, divisor, degree),
        a.len() <= degree + 1,
    ensures
        apply_to_poly(terms, center, a) == (if order < a.len() {
            divisor * factorial(order) * a[order as int]
        } else {
            0
        }),
{
    lemma_apply_is_weighted_moments(terms, center, a);
    lemma_weighted_moments_exact(terms, center, order, divisor, degree, a);
    if order < a.len() {
        assert(a[order as int] * (factorial(order) * divisor) == divisor * factorial(order)
            * a[order as int]) by (nonlinear_arith);
    }
}

/// On samples of a straight line `a[0] + a[1] (k - i)`, every
/// first-difference stencil at `i` returns its divisor times the slope; at
/// interior points the central stencil does so on quadratics as well.
pub proof fn lemma_d1_stencils_on_polynomials(n: usize, i: usize, a: Seq<int>)
    requires
        n >= 3,
        i < n,
        a.len() == 2 || (a.len() == 3 && 0 < i < n - 1),
    ensures
        apply_to_poly(d1_central_terms(n as nat, i as nat), i as int, a) == d1_central_divisor(
            n as nat,
            i as nat,
        ) * a[1],
        a.len() == 2 ==> apply_to_poly(d1_forward_terms(n as nat, i as nat), i as int, a) == a[1],
        a.len() == 2 ==> apply_to_poly(d1_backward_terms(n as nat, i as nat), i as int, a) == a[1],
{
    lemma_d1_stencils_exact(n, i);
    reveal_with_fuel(factorial, 2);
    let dc = d1_central_divisor(n as nat, i as nat);
    let f1 = factorial(1);
    let a1 = a[1];
    assert(f1 == 1);
    if a.len() == 3 {
        lemma_exact_stencil_on_polynomials(d1_central_terms(n as nat, i as nat), i as int, 1, 2, 2, a);
        assert(dc == 2);
        assert(2 * f1 * a1 == dc * a1) by (nonlinear_arith)
            requires
                f1 == 1,
                dc == 2,
        ;
    } else {
        lemma_exact_stencil_on_polynomials(d1_central_terms(n as nat, i as nat), i as int, 1, dc, 1, a);
        lemma_exact_stencil_on_polynomials(d1_forward_terms(n as nat, i as nat), i as int, 1, 1, 1, a);
        lemma_exact_stencil_on_polynomials(d1_backward_terms(n as nat, i as nat), i as int, 1, 1, 1, a);
        assert(dc * f1 * a1 == dc * a1 && 1 * f1 * a1 == a1) by (nonlinear_arith)
            requires
                f1 == 1,
        ;
    }
}

/// On samples of a cubic written in powers of `k - i`, the second
/// difference at interior point `i` is twice the quadratic coefficient: the
/// exact second derivative.
pub proof fn lemma_d2_central_on_cubics(n: usize, i: usize, a: Seq<int>)
    requires
        n >= 3,
        0 < i < n - 1,
        a.len() == 4,
    ensures
        apply_to_poly(d2_central_terms(n as nat, i as nat), i as int, a) == 2 * a[2],
{
    lemma_d2_central_exact(n, i);
    lemma_exact_stencil_on_polynomials(d2_central_terms(n as nat, i as nat), i as int, 2, 1, 3, a);
    reveal_with_fuel(factorial, 3);
    let f2 = factorial(2);
    let a2 = a[2];
    assert(1 * f2 * a2 == 2 * a2) by (nonlinear_arith)
        requires
            f2 == 2,
    ;
}

/// On samples of a quintic written in powers of `k - i`, the fourth-order
/// second difference at interior point `i` is 12 times the exact second
/// derivative, 2 times the quadratic coefficient.
pub proof fn lemma_d2_central_4th_on_quintics(n: usize, i: usize, a: Seq<int>)
    requires
        n >= 5,
        2 <= i < n - 2,
        a.len() == 6,
    ensures
        apply_to_poly(d2_central_4th_terms(n as nat, i as nat), i as int, a) == 12 * (2 * a[2]),
{
    lemma_d2_central_4th_exact(n, i);
    lemma_exact_stencil_on_polynomials(
        d2_central_4th_terms(n as nat, i as nat),
        i as int,
        2,
        12,
        5,
        a,
    );
    reveal_with_fuel(factorial, 3);
    assert(factorial(2) == 2);
    let f2 = factorial(2);
    let a2 = a[2];
    assert(12 * f2 * a2 == 12 * (2 * a2)) by (nonlinear_arith)
        requires
            f2 == 2,
    ;
}

/// The stencil's weighted sum over the samples `u`.
pub open spec fn sample_sum(terms: Seq<StencilTerm>, u: Seq<int>) -> int
    decreases terms.len(),
{
    if terms.len() == 0 {
        0
    } else {
        terms[0].weight * u[terms[0].index as int] + sample_sum(terms.drop_first(), u)
    }
}

/// Sample sum of a stencil given by its first term and the rest.
proof fn lemma_sample_sum_cons(t: Seq<StencilTerm>, u: Seq<int>)
    requires
        t.len() > 0,
    ensures
        sample_sum(t, u) == t[0].weight * u[t[0].index as int] + sample_sum(t.drop_first(), u),
{
}

/// Sum of the second differences of `u` at points 1 to `m`.
pub open spec fn d2_interior_sum(u: Seq<int>, m: nat) -> int
    decreases m,
{
    if m == 0 {
        0
    } else {
        d2_interior_sum(u, (m - 1) as nat) + sample_sum(d2_central_terms(u.len(), m), u)
    }
}

/// The second difference of `u` at point `m`, sampled.
pub proof fn lemma_d2_sample_sum(u: Seq<int>, m: nat)
    requires
        3 <= u.len() <= usize::MAX,
        1 <= m <= u.len() - 2,
    ensures
        sample_sum(d2_central_terms(u.len(), m), u) == u[m as int + 1] - 2 * u[m as int] + u[m - 1],
{
    let t = d2_central_terms(u.len(), m);
    let t1 = t.drop_first();
    let t2 = t1.drop_first();
    lemma_sample_sum_cons(t, u);
    lemma_sample_sum_cons(t1, u);
    lemma_sample_sum_cons(t2, u);
    assert(t2.drop_first() =~= Seq::<StencilTerm>::empty());
    assert(t1[0] == t[1] && t2[0] == t[2]);
    assert(t[0].index == m + 1 && t[1].index == m && t[2].index == m - 1);
    assert(t[0].weight == 1 && t[1].weight == -2 && t[2].weight == 1);
    assert(sample_sum(t2.drop_first(), u) == 0);
    let a = u[m as int + 1];
    let b = u[m as int];
    let d = u[m - 1];
    let w0 = t[0].weight as int;
    let w1 = t[1].weight as int;
    let w2 = t[2].weight as int;
    assert(w0 * a + w1 * b + w2 * d == a - 2 * b + d) by (nonlinear_arith)
        requires
            w0 == 1,
            w1 == -2,
            w2 == 1,
    ;
    assert(u[t[2].index as int] == d && u[t[1].index as int] == b && u[t[0].index as int] == a);
    assert(sample_sum(t2, u) == w2 * d);
    assert(sample_sum(t1, u) == w1 * b + w2 * d);
    assert(sample_sum(t, u) == w0 * a + sample_sum(t1, u));
    assert(sample_sum(t, u) == u[m as int + 1] - 2 * u[m as int] + u[m - 1]);
}

/// The second differences at points 1 to `m` telescope to the difference
/// of the last and first one-sided differences.
proof fn lemma_d2_interior_sum_telescopes(u: Seq<int>, m: nat)
    requires
        3 <= u.len() <= usize::MAX,
        1 <= m <= u.len() - 2,
    ensures
        d2_interior_sum(u, m) == (u[m as int + 1] - u[m as int]) - (u[1] - u[0]),
    decreases m,
{
    lemma_d2_sample_sum(u, m);
    if m > 1 {
        lemma_d2_interior_sum_telescopes(u, (m - 1) as nat);
    } else {
        assert(d2_interior_sum(u, 0) == 0);
    }
}

/// When the boundary cells wrap around (periodic) or mirror their inner
/// neighbours (zero flux), the second differences over the interior sum to
/// zero: an explicit diffusion step keeps the interior total, the discrete
/// mass, unchanged.
pub proof fn lemma_interior_second_differences_cancel(u: Seq<int>)
    requires
        3 <= u.len() <= usize::MAX,
        (u[0] == u[u.len() - 2] && u[u.len() - 1] == u[1]) || (u[0] == u[1] && u[u.len() - 1]
            == u[u.len() - 2]),
    ensures
        d2_interior_sum(u, (u.len() - 2) as nat) == 0,
{
    lemma_d2_interior_sum_telescopes(u, (u.len() - 2) as nat);
}

/// Sample sum of a two-term stencil.
proof fn lemma_sample_sum_two(a: int, wa: int, b: int, wb: int, u: Seq<int>)
    requires
        0 <= a <= usize::MAX,
        0 <= b <= usize::MAX,
        i64::MIN <= wa <= i64::MAX,
        i64::MIN <= wb <= i64::MAX,
    ensures
        sample_sum(seq![term(a, wa), term(b, wb)], u) == wa * u[a] + wb * u[b],
{
    let t = seq![term(a, wa), term(b, wb)];
    lemma_sample_sum_cons(t, u);
    lemma_sample_sum_cons(t.drop_first(), u);
    assert(t.drop_first().drop_first() =~= Seq::<StencilTerm>::empty());
    assert(t.drop_first()[0] == term(b, wb));
}

/// Sample sum of a five-term stencil.
proof fn lemma_sample_sum_five(t: Seq<StencilTerm>, u: Seq<int>)
    requires
        t.len() == 5,
    ensures
        sample_sum(t, u) == t[0].weight * u[t[0].index as int] + t[1].weight * u[t[1].index as int]
            + t[2].weight * u[t[2].index as int] + t[3].weight * u[t[3].index as int] + t[4].weight
            * u[t[4].index as int],
{
    let t1 = t.drop_first();
    let t2 = t1.drop_first();
    let t3 = t2.drop_first();
    let t4 = t3.drop_first();
    lemma_sample_sum_cons(t, u);
    lemma_sample_sum_cons(t1, u);
    lemma_sample_sum_cons(t2, u);
    lemma_sample_sum_cons(t3, u);
    lemma_sample_sum_cons(t4, u);
    assert(t4.drop_first() =~= Seq::<StencilTerm>::empty());
    assert(t1[0] == t[1] && t2[0] == t[2] && t3[0] == t[3] && t4[0] == t[4]);
}

/// The central first difference at `i` of `n` samples `u`: `u[i+1] - u[i-1]`
/// over twice the spacing at an inner point, and the one-sided difference
/// `u[1] - u[0]` or `u[n-1] - u[n-2]` over the spacing at an end.
pub proof fn lemma_d1_central_values(n: nat, i: nat, u: Seq<int>)
    requires
        3 <= n <= usize::MAX,
        i < n,
        u.len() == n,
    ensures
        0 < i < n - 1 ==> sample_sum(d1_central_terms(n, i), u) == u[i as int + 1] - u[i - 1]
            && d1_central_divisor(n, i) == 2,
        i == 0 ==> sample_sum(d1_central_terms(n, i), u) == u[1] - u[0] && d1_central_divisor(n, i)
            == 1,
        i == n - 1 ==> sample_sum(d1_central_terms(n, i), u) == u[n - 1] - u[n - 2]
            && d1_central_divisor(n, i) == 1,
{
    if i == 0 {
        lemma_sample_sum_two(1, 1, 0, -1, u);
    } else if i == n - 1 {
        lemma_sample_sum_two(n - 1, 1, n - 2, -1, u);
    } else {
        lemma_sample_sum_two(i as int + 1, 1, i - 1, -1, u);
    }
}

/// The forward difference at `i` of `n` samples `u`: `u[i+1] - u[i]` at
/// every point but the last, and the last point repeats the value of the
/// one before it.
pub proof fn lemma_d1_forward_values(n: nat, i: nat, u: Seq<int>)
    requires
        2 <= n <= usize::MAX,
        i < n - 1,
        u.len() == n,
    ensures
        sample_sum(d1_forward_terms(n, i), u) == u[i as int + 1] - u[i as int],
        sample_sum(d1_forward_terms(n, (n - 1) as nat), u) == sample_sum(
            d1_forward_terms(n, (n - 2) as nat),
            u,
        ),
{
    lemma_sample_sum_two(i as int + 1, 1, i as int, -1, u);
    lemma_sample_sum_two(n - 1, 1, n - 2, -1, u);
}

/// The backward difference at `i` of `n` samples `u`: `u[i] - u[i-1]` at
/// every point but the first, and the first point repeats the value of the
/// one after it.
pub proof fn lemma_d1_backward_values(n: nat, i: nat, u: Seq<int>)
    requires
        2 <= n <= usize::MAX,
        1 <= i < n,
        u.len() == n,
    ensures
        sample_sum(d1_backward_terms(n, i), u) == u[i as int] - u[i - 1],
        sample_sum(d1_backward_terms(n, 0), u) == sample_sum(d1_backward_terms(n, 1), u),
{
    lemma_sample_sum_two(i as int, 1, i - 1, -1, u);
    lemma_sample_sum_two(1, 1, 0, -1, u);
}

/// The central second difference of `n` samples `u` is `u[i+1] - 2u[i] +
/// u[i-1]` at each inner point and zero at the two ends, whatever `u`.
pub proof fn lemma_d2_central_values(n: nat, i: nat, u: Seq<int>)
    requires
        3 <= n <= usize::MAX,
        i < n,
        u.len() == n,
    ensures
        0 < i < n - 1 ==> sample_sum(d2_central_terms(n, i), u) == u[i as int + 1] - 2 * u[i as int] + u[i
            - 1],
        (i == 0 || i == n - 1) ==> sample_sum(d2_central_terms(n, i), u) == 0,
{
    if 0 < i < n - 1 {
        lemma_d2_sample_sum(u, i);
    }
}

/// The fourth-order second difference of `n` samples `u` is
/// `-u[i+2] + 16u[i+1] - 30u[i] + 16u[i-1] - u[i-2]` over twelve times the
/// squared spacing at each point with two neighbours on either side, and
/// zero at the two points nearest each end, whatever `u`.
pub proof fn lemma_d2_central_4th_values(n: nat, i: nat, u: Seq<int>)
    requires
        5 <= n <= usize::MAX,
        i < n,
        u.len() == n,
    ensures
        2 <= i < n - 2 ==> sample_sum(d2_central_4th_terms(n, i), u) == -u[i as int + 2] + 16 * u[i as int + 1]
            - 30 * u[i as int] + 16 * u[i - 1] - u[i - 2] && d2_central_4th_divisor(n, i) == 12,
        (i < 2 || i >= n - 2) ==> sample_sum(d2_central_4th_terms(n, i), u) == 0,
{
    if 2 <= i < n - 2 {
        let t = d2_central_4th_terms(n, i);
        lemma_sample_sum_five(t, u);
        assert(t[0] == term(i as int + 2, -1) && t[1] == term(i as int + 1, 16) && t[2] == term(i as int, -30)
            && t[3] == term(i - 1, 16) && t[4] == term(i - 2, -1));
        assert(t[0].index == i + 2 && t[1].index == i + 1 && t[2].index == i && t[3].index == i - 1
            && t[4].index == i - 2);
        assert(t[0].weight == -1 && t[1].weight == 16 && t[2].weight == -30 && t[3].weight == 16
            && t[4].weight == -1);
        let (w0, w1, w2, w3, w4) = (
            t[0].weight as int,
            t[1].weight as int,
            t[2].weight as int,
            t[3].weight as int,
            t[4].weight as int,
        );
        let (a, b, c, d, e) = (u[i as int + 2], u[i as int + 1], u[i as int], u[i - 1], u[i - 2]);
        assert(u[t[0].index as int] == a && u[t[1].index as int] == b && u[t[2].index as int] == c
            && u[t[3].index as int] == d && u[t[4].index as int] == e);
        assert(w0 * a + w1 * b + w2 * c + w3 * d + w4 * e == -a + 16 * b - 30 * c + 16 * d - e)
            by (nonlinear_arith)
            requires
                w0 == -1,
                w1 == 16,
                w2 == -30,
                w3 == 16,
                w4 == -1,
        ;
    }
}

} // verus!
