//! Where the engine's time comes from.

use vstd::prelude::*;
use crate::types::Timestamp;

verus! {

/// Reads the clock: the time of `chrono::Utc::now()` in milliseconds since
/// the Unix epoch, as `DateTime::timestamp_millis` gives it.
///
/// Trusted, not proved: the result is the machine's time, so nothing is
/// claimed of it, not even that it is later than the time read before. The
/// call panics if the system clock is set before the epoch.
#[verifier::external_body]
pub(crate) fn now_millis() -> (now: Timestamp) {
    chrono::Utc::now().timestamp_millis()
}

} // verus!
