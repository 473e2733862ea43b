//! Wall-clock access for the metrics store and request timing.
//!
//! The reading is treated as arbitrary by all callers: every function that
//! consumes a time takes it as a plain argument and is verified for any
//! value, and stateful callers clamp the reading to keep their own notion of
//! time monotone.

use vstd::prelude::*;

verus! {

/// Relies on std::time::SystemTime::now and SystemTime::duration_since: the
/// number of whole milliseconds since the Unix epoch, saturated to `u64`, or
/// 0 when the clock reads earlier than the epoch. Nothing is promised of the
/// value.
#[verifier::external_body]
pub(crate) fn clock_ms() -> u64 {
    match std::time::SystemTime::now().duration_since(std::time::UNIX_EPOCH) {
        Ok(d) => {
            let ms = d.as_millis();
            if ms > u64::MAX as u128 {
                u64::MAX
            } else {
                ms as u64
            }
        }
        Err(_) => 0,
    }
}

} // verus!
