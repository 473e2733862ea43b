//! Chaos-injection and metrics core for a resilience-testing HTTP echo server.
//!
//! The library holds the verified heart of the server: the chaos injector's
//! per-request decisions, the metrics store with its all-time counters and
//! rolling one-hour window, endpoint path normalization, and the small pieces
//! of configuration parsing that the pipeline depends on.

use vstd::prelude::*;

pub mod chaos;
mod clock;
pub mod config;
pub mod counts;
pub mod metrics;
pub mod paths;
mod rng;
pub mod timing;

verus! {

/// Classifies an HTTP status code as a success (2xx).
pub open spec fn spec_is_success(code: u16) -> bool {
    200 <= code < 300
}

/// Classifies an HTTP status code as a failure (4xx or 5xx).
pub open spec fn spec_is_failure(code: u16) -> bool {
    code >= 400
}

/// Returns whether a status code counts as a success (2xx).
pub fn is_success(code: u16) -> (r: bool)
    ensures
        r == spec_is_success(code),
{
    200 <= code && code < 300
}

/// Returns whether a status code counts as a failure (4xx or 5xx).
pub fn is_failure(code: u16) -> (r: bool)
    ensures
        r == spec_is_failure(code),
{
    code >= 400
}

} // verus!
