//! The timing interceptor's decisions: which key a request is recorded
//! under, and how a measured duration becomes whole milliseconds.
//!
//! The host framework wraps each request: it captures a monotonic start
//! time, delegates to the inner handler, and on completion — success or
//! failure alike — records the elapsed time under the key chosen here,
//! then passes the handler's result through unchanged.

use vstd::prelude::*;

verus! {

/// The route component of a metric key: the matched route pattern when
/// the router offers one, else the literal request path as fallback.
pub fn metric_path(pattern: Option<String>, path: String) -> (r: String)
    ensures
        match pattern {
            Option::Some(p) => r@ == p@,
            Option::None => r@ == path@,
        },
{
    match pattern {
        Option::Some(p) => p,
        Option::None => path,
    }
}

/// A duration in whole milliseconds, truncating the sub-millisecond
/// remainder.
pub open spec fn millis_of(secs: u64, subsec_nanos: u32) -> int {
    secs * 1000 + subsec_nanos / 1000000
}

/// Converts a duration, given as seconds and subsecond nanoseconds, to
/// whole milliseconds, saturating at the largest representable sample.
pub fn duration_millis(secs: u64, subsec_nanos: u32) -> (r: u64)
    ensures
        millis_of(secs, subsec_nanos) <= u64::MAX ==> r == millis_of(secs, subsec_nanos),
        millis_of(secs, subsec_nanos) > u64::MAX ==> r == u64::MAX,
{
    let total: u128 = (secs as u128) * 1000 + ((subsec_nanos / 1000000) as u128);
    if total > u64::MAX as u128 {
        u64::MAX
    } else {
        total as u64
    }
}

} // verus!
