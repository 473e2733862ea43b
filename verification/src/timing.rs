//! Request timing capture.
//!
//! The timing stage stamps each request with an arrival instant before any
//! chaos effect runs, so injected delay is included in any later duration
//! measurement.

use vstd::prelude::*;
use crate::clock::clock_ms;

verus! {

/// The milliseconds elapsed from `start` to `now`, zero when the clock
/// reads earlier than the start.
pub open spec fn spec_elapsed(start: u64, now: u64) -> u64 {
    if now >= start {
        (now - start) as u64
    } else {
        0
    }
}

/// Stores the start time of a request for duration accounting.
#[derive(Clone, Copy)]
pub struct RequestTiming {
    /// The clock reading when the request started processing, in
    /// milliseconds.
    pub start: u64,
}

impl RequestTiming {
    /// Stamps a request with the given clock reading.
    pub fn at(start: u64) -> (r: Self)
        ensures
            r.start == start,
    {
        RequestTiming { start }
    }

    /// Stamps a request with the current clock reading.
    pub fn now() -> (r: Self) {
        RequestTiming { start: clock_ms() }
    }

    /// The milliseconds elapsed from the stamp to the given reading.
    pub fn elapsed_at(&self, now: u64) -> (r: u64)
        ensures
            r == spec_elapsed(self.start, now),
    {
        if now >= self.start {
            now - self.start
        } else {
            0
        }
    }

    /// The milliseconds elapsed from the stamp to the current clock
    /// reading, whatever the clock returned.
    pub fn elapsed_ms(&self) -> (r: u64)
        ensures
            exists|now: u64| r == spec_elapsed(self.start, now),
    {
        let now = clock_ms();
        self.elapsed_at(now)
    }
}

} // verus!
