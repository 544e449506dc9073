//! The wall clock, read to stamp a review.

use std::time::{Duration, SystemTime, SystemTimeError};
use vstd::prelude::*;

verus! {

/// `SystemTime` of std: a reading of the system clock. Nothing is known of
/// what it holds.
#[verifier::external_type_specification]
#[verifier::external_body]
pub struct ExSystemTime(SystemTime);

/// `SystemTimeError` of std: what `duration_since` gives where the earlier
/// time is the later one. Nothing is known of what it holds.
#[verifier::external_type_specification]
#[verifier::external_body]
pub struct ExSystemTimeError(SystemTimeError);

/// `SystemTime::now` of std: the system clock's present time. Nothing is
/// claimed of it.
pub assume_specification[ SystemTime::now ]() -> (now: SystemTime)
;

/// `SystemTime::duration_since` of std: the time elapsed from `earlier` to
/// `this`, or an error where `earlier` is the later of the two. Nothing is
/// claimed of which it is.
pub assume_specification[ SystemTime::duration_since ](
    this: &SystemTime,
    earlier: SystemTime,
) -> (elapsed: Result<Duration, SystemTimeError>)
;

/// `Duration::as_secs` of std: the whole seconds of a duration. Nothing is
/// claimed of their number.
pub assume_specification[ Duration::as_secs ](this: &Duration) -> (seconds: u64)
;

/// `UNIX_EPOCH` of std: the first second of 1970, as a system time.
#[verifier::external_body]
fn unix_epoch() -> (epoch: SystemTime) {
    std::time::UNIX_EPOCH
}

/// The seconds since the Unix epoch, or nothing where the system clock is
/// set before it. The answer differs from call to call.
pub(crate) fn seconds_since_epoch() -> (seconds: Option<u64>) {
    let now = SystemTime::now();
    match now.duration_since(unix_epoch()) {
        Ok(elapsed) => Some(elapsed.as_secs()),
        Err(_) => None,
    }
}

} // verus!
