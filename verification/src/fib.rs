//! The doubly recursive Fibonacci benchmark: a sequential version, and the
//! version that the task-parallel runtime spawns, which recurses in the same
//! way down to a threshold and then hands over to the sequential one.

use vstd::prelude::*;

verus! {

/// The Fibonacci numbers: 0, 1, 1, 2, 3, 5, ...
pub open spec fn fib_spec(n: nat) -> nat
    decreases n,
{
    if n < 2 {
        n
    } else {
        fib_spec((n - 1) as nat) + fib_spec((n - 2) as nat)
    }
}

/// The Fibonacci numbers never decrease.
pub proof fn lemma_fib_monotonic(i: nat, j: nat)
    requires
        i <= j,
    ensures
        fib_spec(i) <= fib_spec(j),
    decreases j - i,
{
    if i < j {
        lemma_fib_monotonic(i, (j - 1) as nat);
        if j >= 2 {
            assert(fib_spec(j) == fib_spec((j - 1) as nat) + fib_spec((j - 2) as nat));
        }
    }
}

/// The `n`-th Fibonacci number, by the doubly recursive definition.
pub fn fib_seq(n: u64) -> (r: u64)
    requires
        fib_spec(n as nat) <= u64::MAX,
    ensures
        r == fib_spec(n as nat),
    decreases n,
{
    if n < 2 {
        return n;
    }
    proof {
        lemma_fib_monotonic((n - 1) as nat, n as nat);
        lemma_fib_monotonic((n - 2) as nat, n as nat);
    }
    let r1 = fib_seq(n - 2);
    let r2 = fib_seq(n - 1);
    return r1 + r2;
}

/// The `n`-th Fibonacci number, recursing in two branches until `n` falls
/// below `threshold` and computing the rest sequentially. Whatever the
/// threshold, the result is the one `fib_seq` gives.
pub fn fib(n: u64, threshold: u64) -> (r: u64)
    requires
        n < threshold || threshold >= 2,
        fib_spec(n as nat) <= u64::MAX,
    ensures
        r == fib_spec(n as nat),
    decreases n,
{
    if n < threshold {
        return fib_seq(n);
    }
    proof {
        lemma_fib_monotonic((n - 1) as nat, n as nat);
        lemma_fib_monotonic((n - 2) as nat, n as nat);
    }
    let r2 = fib(n - 1, threshold);
    let r1 = fib(n - 2, threshold);
    return r1 + r2;
}

} // verus!
