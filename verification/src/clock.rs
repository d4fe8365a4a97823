//! The current time, from the system clock.

use vstd::prelude::*;

verus! {

/// Relies on `chrono::Utc::now` and `DateTime::timestamp`: the current
/// instant as Unix seconds. Nothing can be promised of a clock reading;
/// on a system clock set before the epoch, `Utc::now` itself faults.
#[verifier::external_body]
fn chrono_now_unix() -> i64 {
    chrono::Utc::now().timestamp()
}

/// The current Unix time in seconds. A negative stamp is clamped to zero
/// so the result fits an unsigned count; the clock library does not
/// return one on an ordinary host (it faults first on a pre-epoch
/// clock), so the clamp is a guard, not a reachable behavior.
pub fn current_timestamp() -> u64 {
    let t = chrono_now_unix();
    if t < 0 {
        0
    } else {
        t as u64
    }
}

} // verus!
