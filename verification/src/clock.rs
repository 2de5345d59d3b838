//! The wall clock, as the time stamps of orders and trades need it.

use std::time::{SystemTime, SystemTimeError, UNIX_EPOCH};
use vstd::prelude::*;

verus! {

/// [`std::time::SystemTime`], carried from one call to the next.
#[verifier::external_type_specification]
#[verifier::external_body]
pub struct ExSystemTime(SystemTime);

/// [`std::time::SystemTimeError`]: the clock stands before the Unix epoch.
#[verifier::external_type_specification]
#[verifier::external_body]
pub struct ExSystemTimeError(SystemTimeError);

/// [`SystemTime::now`]. Nothing is claimed of the reading.
pub assume_specification[ SystemTime::now ]() -> (now: SystemTime)
;

/// [`SystemTime::duration_since`], counted from [`UNIX_EPOCH`]. The duration is
/// handed out as its whole seconds (`as_secs`) and the nanoseconds beyond them
/// (`subsec_nanos`), which are fewer than a second has. Nothing more is
/// claimed: how `now` stands to the epoch is the machine's affair.
#[verifier::external_body]
fn since_epoch(now: SystemTime) -> (elapsed: Result<(u64, u32), SystemTimeError>)
    ensures
        elapsed matches Ok((_, nanos)) ==> nanos < 1_000_000_000,
{
    match now.duration_since(UNIX_EPOCH) {
        Ok(elapsed) => Ok((elapsed.as_secs(), elapsed.subsec_nanos())),
        Err(error) => Err(error),
    }
}

/// The time stamp of a moment, from how long after the Unix epoch it is in
/// some unit: as much of that as fits into a stamp. A moment before the epoch
/// has the stamp zero.
pub fn time_stamp(elapsed: Option<u128>) -> (stamp: u64)
    ensures
        stamp == match elapsed {
            Some(elapsed) => elapsed as u64,
            None => 0,
        },
{
    match elapsed {
        Some(elapsed) => {
            #[verifier::truncate]
            (elapsed as u64)
        },
        None => 0,
    }
}

/// Milliseconds since the Unix epoch, as [`millis_stamp`] writes them. Which
/// moment the clock shows is the machine's affair, and nothing is promised of
/// it; any stamp can come of one.
pub fn now_millis() -> u64 {
    match since_epoch(SystemTime::now()) {
        Ok(elapsed) => millis_stamp(Some(elapsed)),
        Err(_) => millis_stamp(None),
    }
}

/// Nanoseconds since the Unix epoch, as [`nanos_stamp`] writes them. Nothing
/// is promised of the moment, as with [`now_millis`].
pub fn now_nanos() -> u64 {
    match since_epoch(SystemTime::now()) {
        Ok(elapsed) => nanos_stamp(Some(elapsed)),
        Err(_) => nanos_stamp(None),
    }
}

/// The whole milliseconds in so many seconds and nanoseconds.
pub open spec fn whole_millis(seconds: u64, nanos: u32) -> int {
    seconds * 1_000 + nanos / 1_000_000
}

/// The nanoseconds in so many seconds and nanoseconds.
pub open spec fn whole_nanos(seconds: u64, nanos: u32) -> int {
    seconds * 1_000_000_000 + nanos
}

/// The time stamp, in milliseconds, of the moment so many seconds and
/// nanoseconds after the Unix epoch, or of one before it.
pub fn millis_stamp(elapsed: Option<(u64, u32)>) -> (stamp: u64)
    ensures
        stamp == match elapsed {
            Some((seconds, nanos)) => whole_millis(seconds, nanos) as u64,
            None => 0,
        },
{
    match elapsed {
        Some((seconds, nanos)) => {
            let millis: u128 = seconds as u128 * 1_000 + (nanos / 1_000_000) as u128;
            time_stamp(Some(millis))
        },
        None => time_stamp(None),
    }
}

/// The time stamp, in nanoseconds, of the moment so many seconds and
/// nanoseconds after the Unix epoch, or of one before it.
pub fn nanos_stamp(elapsed: Option<(u64, u32)>) -> (stamp: u64)
    ensures
        stamp == match elapsed {
            Some((seconds, nanos)) => whole_nanos(seconds, nanos) as u64,
            None => 0,
        },
{
    match elapsed {
        Some((seconds, nanos)) => {
            let total: u128 = seconds as u128 * 1_000_000_000 + nanos as u128;
            time_stamp(Some(total))
        },
        None => time_stamp(None),
    }
}

/// Law: a moment that is a second, or a nanosecond, later is stamped as many
/// units later, from the epoch on. A millisecond is a million nanoseconds, and
/// only whole ones count.
pub proof fn law_stamps_count_time(seconds: u64, nanos: u32)
    ensures
        whole_nanos(0, 0) == 0,
        nanos > 0 ==> whole_nanos(seconds, nanos) == whole_nanos(seconds, (nanos - 1) as u32) + 1,
        seconds > 0 ==> whole_nanos(seconds, nanos) == whole_nanos((seconds - 1) as u64, nanos)
            + 1_000_000_000,
        whole_millis(seconds, nanos) * 1_000_000 <= whole_nanos(seconds, nanos),
        whole_nanos(seconds, nanos) < (whole_millis(seconds, nanos) + 1) * 1_000_000,
{
}

} // verus!
