//! The two environment readings a commit records: the current time and
//! the local UTC offset. Both depend on the machine, so nothing more is
//! promised of them than their documented ranges.

use vstd::prelude::*;
use chrono::Offset;

verus! {

/// Relies on `std::time::SystemTime::now`: seconds since the epoch, or
/// zero on a clock set before it.
#[verifier::external_body]
pub fn now_epoch_seconds() -> u64 {
    std::time::SystemTime::now().duration_since(std::time::UNIX_EPOCH).map(|d| d.as_secs()).unwrap_or(0)
}

/// Relies on `chrono::Local::now` and `chrono::FixedOffset`: the local
/// offset from UTC in seconds, strictly within one day either way.
#[verifier::external_body]
pub fn local_utc_offset_seconds() -> (r: i32)
    ensures
        -86400 < r < 86400,
{
    chrono::Local::now().offset().fix().local_minus_utc()
}

} // verus!
