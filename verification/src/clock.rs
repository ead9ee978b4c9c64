//! The monotonic clock that the benchmark driver reads around the insertion
//! phase. A clock reading is opaque: no two calls are related by contract.

use vstd::prelude::*;

verus! {

/// Relies on `time::precise_time_ns`: nanoseconds of a monotonic
/// high-resolution performance counter since an unspecified epoch. Nothing
/// is promised of the value: it depends on when the call runs.
#[verifier::external_body]
fn precise_time_ns() -> u64 {
    time::precise_time_ns()
}

/// The current value of a high-resolution clock, in nanoseconds since an
/// unspecified epoch. Callers may only subtract two readings to measure a
/// span.
pub fn now() -> u64 {
    precise_time_ns()
}

} // verus!
