//! The system clock.

use vstd::prelude::*;

verus! {

/// Why the clock cannot be used.
#[derive(Debug, Clone, Copy, PartialEq, Eq, Structural)]
pub enum ClockError {
    /// It is set to a time before the Unix epoch.
    BeforeEpoch,
}

/// Whether the clock gave this reading: whole seconds since the Unix epoch, or nothing. It may give
/// any, so this holds of all; but other modules cannot see that, and know it only of what
/// [`unix_seconds`] has returned. A contract that speaks of a reading with this property is met
/// with a reading of the clock, not with a time made up from one.
pub closed spec fn is_reading(secs: Option<u64>) -> bool {
    true
}

/// Calls `std::time::SystemTime::elapsed` on the Unix epoch and gives the whole seconds that have
/// passed since then, or nothing if the clock is set to an earlier time. Nothing is claimed of the
/// number: it is whatever the clock says.
#[verifier::external_body]
pub(crate) fn unix_seconds() -> (secs: Option<u64>)
    ensures
        is_reading(secs),
{
    match std::time::UNIX_EPOCH.elapsed() {
        Ok(elapsed) => Some(elapsed.as_secs()),
        Err(_) => None,
    }
}

} // verus!
