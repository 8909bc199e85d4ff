//! Wall-clock benchmarking of a single computation.

use vstd::prelude::*;
use std::time::{Duration, Instant};

verus! {

/// An opaque reading of the monotonic clock, for timing computations.
#[verifier::external_type_specification]
#[verifier::external_body]
pub struct ExInstant(Instant);

/// Relies on std::time::Instant::now: an opaque reading of the monotonic
/// clock. Nothing is assumed about the value read.
#[verifier::external_body]
fn clock_now() -> Instant {
    Instant::now()
}

/// Relies on std::time::Instant::duration_since: the time elapsed from
/// `earlier` to `later`, or zero when `earlier` is in fact the later one;
/// it never panics. Nothing is assumed about the value returned.
#[verifier::external_body]
fn duration_between(earlier: &Instant, later: &Instant) -> Duration {
    later.duration_since(*earlier)
}

/// Benchmarks a computation: runs the closure once and returns how long it
/// took together with whatever it returned. The timing is opaque; the
/// result is exactly one call of the closure.
pub fn benchmark<T, F: FnOnce() -> T>(func: F) -> (r: (Duration, T))
    requires
        call_requires(func, ()),
    ensures
        call_ensures(func, (), r.1),
{
    let time_start = clock_now();
    let res = func();
    let time_end = clock_now();
    (duration_between(&time_start, &time_end), res)
}

} // verus!
