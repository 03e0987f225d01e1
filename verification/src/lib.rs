//! Fixed-count refinement by successive application of a step function,
//! the verified core of a Newton-Raphson root finder.
//!
//! The numeric update rule `x - f(x) / fd(x)` is supplied by the caller as a
//! step closure; this crate proves the surrounding machinery: the loop applies
//! the step exactly `max(iterations, 0)` times, feeding each result to the
//! next application, and chains of applications compose.

use vstd::prelude::*;

verus! {

/// How many refinement steps a requested iteration count yields: a zero or
/// negative request performs no steps.
pub open spec fn step_count(iterations: int) -> nat {
    if iterations <= 0 {
        0
    } else {
        iterations as nat
    }
}

/// Holds when `to` can arise from `from` by exactly `n` successive
/// applications of `step`, each application's result feeding the next.
pub open spec fn reaches<T, F: Fn(T) -> T>(step: F, from: T, n: nat, to: T) -> bool
    decreases n,
{
    if n == 0 {
        to == from
    } else {
        exists|mid: T|
            #[trigger] call_ensures(step, (from,), mid) && reaches(
                step,
                mid,
                (n - 1) as nat,
                to,
            )
    }
}

/// A chain of zero applications starts and ends at the same value.
pub proof fn lemma_reaches_refl<T, F: Fn(T) -> T>(step: F, x: T)
    ensures
        reaches(step, x, 0, x),
{
}

/// One further application of `step` extends a chain at its end.
pub proof fn lemma_reaches_extend<T, F: Fn(T) -> T>(step: F, from: T, n: nat, to: T, next: T)
    requires
        reaches(step, from, n, to),
        call_ensures(step, (to,), next),
    ensures
        reaches(step, from, n + 1, next),
    decreases n,
{
    if n == 0 {
        assert(reaches(step, next, 0, next));
    } else {
        let mid = choose|mid: T|
            #[trigger] call_ensures(step, (from,), mid) && reaches(step, mid, (n - 1) as nat, to);
        lemma_reaches_extend(step, mid, (n - 1) as nat, to, next);
    }
}

/// Holds when `step` relates each input to at most one output, so that
/// repeated application is a function of the starting value alone.
pub open spec fn deterministic<T, F: Fn(T) -> T>(step: F) -> bool {
    forall|x: T, y1: T, y2: T|
        #![trigger call_ensures(step, (x,), y1), call_ensures(step, (x,), y2)]
        call_ensures(step, (x,), y1) && call_ensures(step, (x,), y2) ==> y1 == y2
}

/// A zero or negative iteration count performs no steps, so the final
/// candidate is the guess itself.
pub proof fn lemma_zero_iterations_identity<T, F: Fn(T) -> T>(
    step: F,
    guess: T,
    iterations: int,
    r: T,
)
    requires
        iterations <= 0,
        reaches(step, guess, step_count(iterations), r),
    ensures
        r == guess,
{
}

/// Chains of applications concatenate: `m` steps to `b` followed by `n`
/// steps to `c` form `m + n` steps to `c`.
pub proof fn lemma_reaches_concat<T, F: Fn(T) -> T>(step: F, a: T, m: nat, b: T, n: nat, c: T)
    requires
        reaches(step, a, m, b),
        reaches(step, b, n, c),
    ensures
        reaches(step, a, m + n, c),
    decreases m,
{
    if m > 0 {
        let mid = choose|mid: T|
            #[trigger] call_ensures(step, (a,), mid) && reaches(step, mid, (m - 1) as nat, b);
        lemma_reaches_concat(step, mid, (m - 1) as nat, b, n, c);
    }
}

/// With a deterministic step, the candidate after `n` applications is
/// uniquely determined by the starting value.
pub proof fn lemma_reaches_unique<T, F: Fn(T) -> T>(step: F, from: T, n: nat, to1: T, to2: T)
    requires
        deterministic(step),
        reaches(step, from, n, to1),
        reaches(step, from, n, to2),
    ensures
        to1 == to2,
    decreases n,
{
    if n > 0 {
        let m1 = choose|m: T|
            #[trigger] call_ensures(step, (from,), m) && reaches(step, m, (n - 1) as nat, to1);
        let m2 = choose|m: T|
            #[trigger] call_ensures(step, (from,), m) && reaches(step, m, (n - 1) as nat, to2);
        assert(m1 == m2);
        lemma_reaches_unique(step, m1, (n - 1) as nat, to1, to2);
    }
}

/// The composition law: with a deterministic step, `m + n` applications from
/// `guess` land exactly where `n` applications land when started from the
/// candidate after `m` applications.
pub proof fn lemma_composition<T, F: Fn(T) -> T>(
    step: F,
    guess: T,
    m: nat,
    mid: T,
    n: nat,
    composed: T,
    whole: T,
)
    requires
        deterministic(step),
        reaches(step, guess, m, mid),
        reaches(step, mid, n, composed),
        reaches(step, guess, m + n, whole),
    ensures
        whole == composed,
{
    lemma_reaches_concat(step, guess, m, mid, n, composed);
    lemma_reaches_unique(step, guess, m + n, composed, whole);
}

/// Applies `step` to `guess` exactly `step_count(iterations)` times in
/// sequence and returns the final candidate; with a zero or negative count
/// the guess comes back unchanged.
pub fn find_root<T, F: Fn(T) -> T>(step: F, guess: T, iterations: i32) -> (r: T)
    requires
        forall|x: T| #[trigger] call_requires(step, (x,)),
    ensures
        reaches(step, guess, step_count(iterations as int), r),
{
    let ghost start = guess;
    let mut result = guess;
    let mut i: i32 = 0;
    while i < iterations
        invariant
            forall|x: T| #[trigger] call_requires(step, (x,)),
            0 <= i,
            iterations >= 0 ==> i <= iterations,
            iterations < 0 ==> i == 0,
            reaches(step, start, i as nat, result),
        decreases iterations - i,
    {
        let ghost prev = result;
        let next = step(result);
        proof {
            lemma_reaches_extend(step, start, i as nat, prev, next);
        }
        result = next;
        i = i + 1;
    }
    result
}

} // verus!
