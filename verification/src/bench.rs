//! Workloads and helpers of the benchmark harness.

use vstd::prelude::*;
use vstd::string::*;
use crate::text::owned;

verus! {

broadcast use vstd::string::group_string_axioms;

/// Sums `n` one million times: a deliberately slow way to get `n * 1_000_000`.
pub fn heavy_computation(n: u64) -> (sum: u64)
    requires
        n * 1_000_000 <= u64::MAX,
    ensures
        sum == n * 1_000_000,
{
    let mut sum: u64 = 0;
    let mut i: u64 = 0;
    while i < 1_000_000
        invariant
            i <= 1_000_000,
            sum == n * i,
            n * 1_000_000 <= u64::MAX,
        decreases 1_000_000 - i,
    {
        proof {
            vstd::arithmetic::mul::lemma_mul_inequality(i as int + 1, 1_000_000, n as int);
            vstd::arithmetic::mul::lemma_mul_is_distributive_add(n as int, i as int, 1);
        }
        sum = sum + n;
        i = i + 1;
    }
    sum
}

/// The file name of the executable `base`: with `.exe` on Windows.
pub fn exe_name(base: &str, windows: bool) -> (r: String)
    ensures
        r@ == if windows {
            base@ + ".exe"@
        } else {
            base@
        },
{
    let mut r = owned(base);
    if windows {
        r.append(".exe");
    }
    r
}

/// `std::time::Instant`, carried through opaquely.
#[verifier::external_type_specification]
#[verifier::external_body]
pub struct ExInstant(std::time::Instant);

/// The current time, by `Instant::now`; the contract claims nothing of the
/// value, which depends on the clock.
#[verifier::external_body]
fn now() -> std::time::Instant {
    std::time::Instant::now()
}

/// The time since `start`, by `Instant::elapsed`; the contract claims nothing
/// of the value, which depends on the clock.
#[verifier::external_body]
fn elapsed(start: &std::time::Instant) -> std::time::Duration {
    start.elapsed()
}

/// Runs `run_once(0)`, `run_once(1)`, ..., `run_once(invocations - 1)` one
/// after another and returns the wall-clock time it took; every run number
/// below `invocations` has been run.
pub fn run_sequential<F: Fn(usize)>(run_once: &F, invocations: usize) -> (d: std::time::Duration)
    requires
        forall|k: usize| call_requires(*run_once, (k,)),
    ensures
        forall|k: usize| k < invocations ==> call_ensures(*run_once, (k,), ()),
{
    let start = now();
    let mut i: usize = 0;
    while i < invocations
        invariant
            i <= invocations,
            forall|k: usize| call_requires(*run_once, (k,)),
            forall|k: usize| k < i ==> call_ensures(*run_once, (k,), ()),
        decreases invocations - i,
    {
        run_once(i);
        i = i + 1;
    }
    elapsed(&start)
}

} // verus!
