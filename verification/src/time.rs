//! Spans of time.
use vstd::prelude::*;
use std::time::Duration;

verus! {

/// How many nanoseconds a span lasts.
pub uninterp spec fn nanos(d: Duration) -> nat;

/// std's `Duration::as_nanos`: the whole span in nanoseconds.
pub assume_specification[ Duration::as_nanos ](d: &Duration) -> (r: u128)
    ensures
        r == nanos(*d),
;

/// std's `Duration::as_millis`: the whole milliseconds in a span.
pub assume_specification[ Duration::as_millis ](d: &Duration) -> (r: u128)
    ensures
        r == nanos(*d) / 1_000_000,
;

/// std's `Duration::from_millis`: a span of so many milliseconds.
pub assume_specification[ Duration::from_millis ](millis: u64) -> (d: Duration)
    ensures
        nanos(d) == millis * 1_000_000,
;

/// The longer of two spans.
pub open spec fn spec_longer(a: Duration, b: Duration) -> Duration {
    if nanos(a) < nanos(b) {
        b
    } else {
        a
    }
}

/// The longer of two spans.
pub fn longer(a: Duration, b: Duration) -> (r: Duration)
    ensures
        r == spec_longer(a, b),
{
    if a.as_nanos() < b.as_nanos() {
        b
    } else {
        a
    }
}

} // verus!
