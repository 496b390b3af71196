//! Drivers for time stepping and for iteration to a tolerance: the loops of
//! the solvers, with the work of each step supplied by the caller.

use vstd::prelude::*;

verus! {

/// Runs `n_steps` steps from `initial` and returns every state reached, the
/// initial one first: `n_steps + 1` states, each the step of the one before.
pub fn evolve<S, F: Fn(&S) -> S>(initial: S, n_steps: usize, step: F) -> (history: Vec<S>)
    requires
        n_steps < usize::MAX,
        forall|s: &S| #[trigger] step.requires((s,)),
    ensures
        history.len() == n_steps + 1,
        history[0] == initial,
        forall|k: int| 0 <= k < n_steps ==> #[trigger] step.ensures((&history[k],), history[k + 1]),
{
    let mut history: Vec<S> = Vec::new();
    history.push(initial);
    let mut k: usize = 0;
    while k < n_steps
        invariant
            k <= n_steps < usize::MAX,
            history.len() == k + 1,
            history[0] == initial,
            forall|s: &S| #[trigger] step.requires((s,)),
            forall|j: int| 0 <= j < k ==> #[trigger] step.ensures((&history[j],), history[j + 1]),
        decreases n_steps - k,
    {
        let next = step(&history[k]);
        history.push(next);
        k += 1;
    }
    history
}

/// Runs a two-level scheme: from the states `first` and `second`, each new
/// state is the step of the two before it.  Returns every state, the two
/// given ones first; a run of `n_steps` steps reaches `n_steps + 1` states,
/// and a run of none still holds both given states.
pub fn evolve_two_level<S, F: Fn(&S, &S) -> S>(first: S, second: S, n_steps: usize, step: F) -> (history: Vec<S>)
    requires
        n_steps < usize::MAX,
        forall|a: &S, b: &S| #[trigger] step.requires((a, b)),
    ensures
        history.len() == (if n_steps == 0 {
            2int
        } else {
            n_steps + 1
        }),
        history[0] == first,
        history[1] == second,
        forall|k: int|
            2 <= k < history.len() ==> #[trigger] step.ensures(
                (&history[k - 2], &history[k - 1]),
                history[k],
            ),
{
    let mut history: Vec<S> = Vec::new();
    history.push(first);
    history.push(second);
    let mut k: usize = 1;
    while k < n_steps
        invariant
            1 <= k,
            k <= n_steps || k == 1,
            n_steps < usize::MAX,
            history.len() == k + 1,
            history[0] == first,
            history[1] == second,
            forall|a: &S, b: &S| #[trigger] step.requires((a, b)),
            forall|j: int|
                2 <= j < history.len() ==> #[trigger] step.ensures(
                    (&history[j - 2], &history[j - 1]),
                    history[j],
                ),
        decreases n_steps - k,
    {
        let next = step(&history[k - 1], &history[k]);
        history.push(next);
        k += 1;
    }
    history
}

/// The state an iteration stopped in, how many sweeps it made, and whether
/// it stopped because the convergence test passed.
pub struct Outcome<S> {
    pub state: S,
    pub iterations: usize,
    pub converged: bool,
}

/// `states` is a run of an iteration: each state is a sweep of the one
/// before it, and the convergence test failed on every state between the
/// first and the last.
pub open spec fn is_run<S, F: Fn(S) -> S, C: Fn(&S) -> bool>(
    sweep: F,
    done: C,
    states: Seq<S>,
) -> bool {
    &&& states.len() >= 1
    &&& forall|k: int|
        0 <= k < states.len() - 1 ==> #[trigger] sweep.ensures((states[k],), states[k + 1])
    &&& forall|k: int| 1 <= k < states.len() - 1 ==> #[trigger] done.ensures((&states[k],), false)
}

/// The closure `sweep` computes the spec function `f`.
pub open spec fn computes_sweep<S, F: Fn(S) -> S>(sweep: F, f: spec_fn(S) -> S) -> bool {
    forall|s: S, t: S| #[trigger] sweep.ensures((s,), t) ==> t == f(s)
}

/// The closure `done` computes the spec predicate `g`.
pub open spec fn computes_test<S, C: Fn(&S) -> bool>(done: C, g: spec_fn(S) -> bool) -> bool {
    forall|s: S, b: bool| #[trigger] done.ensures((&s,), b) ==> b == g(s)
}

/// What an iteration with sweep `f` and convergence test `g` ends in, from
/// state `s` with a budget of `budget` sweeps: the final state, the number
/// of sweeps made, and whether the test passed.  The test is applied after
/// each sweep, never to the starting state.
pub open spec fn iteration_outcome<S>(
    f: spec_fn(S) -> S,
    g: spec_fn(S) -> bool,
    s: S,
    budget: nat,
) -> (S, nat, bool)
    decreases budget,
{
    if budget == 0 {
        (s, 0, false)
    } else if g(f(s)) {
        (f(s), 1, true)
    } else {
        let rest = iteration_outcome(f, g, f(s), (budget - 1) as nat);
        (rest.0, rest.1 + 1, rest.2)
    }
}

/// A run of sweeps that ends as an iteration ends is the outcome of the
/// iteration model on its first state.
proof fn lemma_run_is_outcome<S>(
    f: spec_fn(S) -> S,
    g: spec_fn(S) -> bool,
    states: Seq<S>,
    budget: nat,
    converged: bool,
)
    requires
        states.len() >= 1,
        states.len() - 1 <= budget,
        forall|k: int| 0 <= k < states.len() - 1 ==> states[k + 1] == #[trigger] f(states[k]),
        forall|k: int| 1 <= k < states.len() - 1 ==> !g(#[trigger] states[k]),
        converged ==> states.len() >= 2 && g(states.last()),
        !converged ==> states.len() - 1 == budget,
        !converged && states.len() >= 2 ==> !g(states.last()),
    ensures
        iteration_outcome(f, g, states[0], budget) == (
            states.last(),
            (states.len() - 1) as nat,
            converged,
        ),
    decreases budget,
{
    if budget > 0 {
        assert(states.len() >= 2);
        assert(states[1] == f(states[0]));
        if states.len() > 2 {
            assert(!g(states[1]));
        }
        if !g(f(states[0])) {
            let rest = states.subrange(1, states.len() as int);
            assert forall|k: int| 0 <= k < rest.len() - 1 implies rest[k + 1] == #[trigger] f(
                rest[k],
            ) by {
                assert(rest[k + 1] == states[k + 2] && rest[k] == states[k + 1]);
            }
            assert forall|k: int| 1 <= k < rest.len() - 1 implies !g(#[trigger] rest[k]) by {
                assert(rest[k] == states[k + 1]);
            }
            lemma_run_is_outcome(f, g, rest, (budget - 1) as nat, converged);
        }
    }
}

/// The outcome of `iterate_until`, as a run of states, is the iteration
/// model's outcome for every pair of spec functions that the closures
/// compute.
proof fn lemma_outcome_matches_model<S, F: Fn(S) -> S, C: Fn(&S) -> bool>(
    sweep: F,
    done: C,
    states: Seq<S>,
    max_iter: nat,
    converged: bool,
)
    requires
        is_run(sweep, done, states),
        states.len() - 1 <= max_iter,
        converged ==> states.len() >= 2 && done.ensures((&states.last(),), true),
        !converged ==> states.len() - 1 == max_iter,
        !converged && states.len() >= 2 ==> done.ensures((&states.last(),), false),
    ensures
        forall|f: spec_fn(S) -> S, g: spec_fn(S) -> bool|
            computes_sweep(sweep, f) && computes_test(done, g) ==> iteration_outcome(
                f,
                g,
                states[0],
                max_iter,
            ) == (states.last(), (states.len() - 1) as nat, converged),
{
    assert forall|f: spec_fn(S) -> S, g: spec_fn(S) -> bool|
        computes_sweep(sweep, f) && computes_test(done, g) implies iteration_outcome(
        f,
        g,
        states[0],
        max_iter,
    ) == (states.last(), (states.len() - 1) as nat, converged) by {
        assert forall|k: int| 0 <= k < states.len() - 1 implies states[k + 1] == #[trigger] f(
            states[k],
        ) by {
            assert(sweep.ensures((states[k],), states[k + 1]));
        }
        assert forall|k: int| 1 <= k < states.len() - 1 implies !g(#[trigger] states[k]) by {
            assert(done.ensures((&states[k],), false));
        }
        if converged {
            assert(done.ensures((&states.last(),), true));
        }
        if !converged && states.len() >= 2 {
            assert(done.ensures((&states.last(),), false));
        }
        lemma_run_is_outcome(f, g, states, max_iter, converged);
    }
}

/// The budget of an iteration decides nothing but where a run that does not
/// converge is cut off: an iteration that converges after `k` sweeps gives
/// the same outcome under every budget of at least `k` sweeps, and under
/// every smaller budget uses it up without converging.  So `k` is the first
/// sweep count after which the convergence test passes.
pub proof fn lemma_iteration_budget<S>(
    f: spec_fn(S) -> S,
    g: spec_fn(S) -> bool,
    s: S,
    budget: nat,
    other: nat,
)
    requires
        iteration_outcome(f, g, s, budget).2,
    ensures
        other >= iteration_outcome(f, g, s, budget).1 ==> iteration_outcome(f, g, s, other)
            == iteration_outcome(f, g, s, budget),
        other < iteration_outcome(f, g, s, budget).1 ==> !iteration_outcome(f, g, s, other).2
            && iteration_outcome(f, g, s, other).1 == other,
    decreases budget,
{
    if !g(f(s)) && other > 0 {
        lemma_iteration_budget(f, g, f(s), (budget - 1) as nat, (other - 1) as nat);
    }
}

/// Sweeps from `initial` until the convergence test `done` passes on the
/// state just reached, or `max_iter` sweeps have been made.  The outcome's
/// state is reached from `initial` by exactly `iterations` sweeps, and the
/// test failed after each earlier sweep; the iteration converged exactly
/// when it stopped on a passing test, and otherwise made all `max_iter`
/// sweeps.  Where the closures compute functions of the state, the outcome
/// is `iteration_outcome` of those functions.
pub fn iterate_until<S, F: Fn(S) -> S, C: Fn(&S) -> bool>(
    initial: S,
    max_iter: usize,
    sweep: F,
    done: C,
) -> (out: Outcome<S>)
    requires
        forall|s: S| #[trigger] sweep.requires((s,)),
        forall|s: &S| #[trigger] done.requires((s,)),
    ensures
        out.iterations <= max_iter,
        out.converged ==> out.iterations >= 1 && done.ensures((&out.state,), true),
        !out.converged ==> out.iterations == max_iter,
        !out.converged && max_iter >= 1 ==> done.ensures((&out.state,), false),
        exists|states: Seq<S>|
            #[trigger] is_run(sweep, done, states) && states.len() == out.iterations + 1 && states[0]
                == initial && states.last() == out.state,
        forall|f: spec_fn(S) -> S, g: spec_fn(S) -> bool|
            computes_sweep(sweep, f) && computes_test(done, g) ==> iteration_outcome(
                f,
                g,
                initial,
                max_iter as nat,
            ) == (out.state, out.iterations as nat, out.converged),
{
    let ghost mut states: Seq<S> = seq![initial];
    let mut state = initial;
    let mut k: usize = 0;
    while k < max_iter
        invariant
            k <= max_iter,
            forall|s: S| #[trigger] sweep.requires((s,)),
            forall|s: &S| #[trigger] done.requires((s,)),
            states.len() == k + 1,
            states[0] == initial,
            states.last() == state,
            is_run(sweep, done, states),
            k >= 1 ==> done.ensures((&state,), false),
        decreases max_iter - k,
    {
        let ghost prev = states;
        let next = sweep(state);
        proof {
            states = states.push(next);
            assert(states.drop_last() =~= prev);
        }
        state = next;
        k += 1;
        proof {
            assert forall|j: int| 0 <= j < states.len() - 1 implies #[trigger] sweep.ensures(
                (states[j],),
                states[j + 1],
            ) by {
                if j < states.len() - 2 {
                    assert(states[j] == prev[j] && states[j + 1] == prev[j + 1]);
                }
            }
            assert forall|j: int| 1 <= j < states.len() - 1 implies #[trigger] done.ensures(
                (&states[j],),
                false,
            ) by {
                assert(states[j] == prev[j]);
            }
            assert(is_run(sweep, done, states));
        }
        let passed = done(&state);
        if passed {
            proof {
                lemma_outcome_matches_model(sweep, done, states, max_iter as nat, true);
            }
            return Outcome { state, iterations: k, converged: true };
        }
    }
    proof {
        lemma_outcome_matches_model(sweep, done, states, max_iter as nat, false);
    }
    Outcome { state, iterations: k, converged: false }
}

} // verus!
