//! The wall clock.

use std::time::{SystemTime, UNIX_EPOCH};

use vstd::prelude::*;

verus! {

/// A point in time, opaque here but for how far it stands from the Unix epoch.
#[verifier::external_type_specification]
#[verifier::external_body]
pub struct ExSystemTime(SystemTime);

/// `SystemTime::now`. Nothing is claimed of what the clock says.
pub assume_specification[ SystemTime::now ]() -> (now: SystemTime)
;

/// How many nanoseconds `time` stands after the Unix epoch; negative before it.
pub uninterp spec fn nanos_since_epoch(time: SystemTime) -> int;

/// Whether `elapsed` spells `since`, the nanoseconds after the Unix epoch: whole
/// seconds and the nanoseconds on top of them, less than a second, or nothing
/// before the epoch.
pub open spec fn elapsed_at(since: int, elapsed: Option<(u64, u32)>) -> bool {
    match elapsed {
        Some((seconds, nanos)) => nanos < 1_000_000_000 && since == seconds * 1_000_000_000 + nanos,
        None => since < 0,
    }
}

/// What a clock may say: the time since the Unix epoch at some point in time.
pub open spec fn is_reading(elapsed: Option<(u64, u32)>) -> bool {
    exists|time: SystemTime| elapsed_at(#[trigger] nanos_since_epoch(time), elapsed)
}

/// `SystemTime::duration_since` of the Unix epoch, as whole seconds and the
/// nanoseconds on top of them; `None` for its error. Claimed: the error comes
/// exactly for a time before the epoch, and otherwise seconds and nanoseconds
/// add up to the time since the epoch, the nanoseconds less than a second.
#[verifier::external_body]
fn since_epoch(time: SystemTime) -> (elapsed: Option<(u64, u32)>)
    ensures
        elapsed_at(nanos_since_epoch(time), elapsed),
{
    match time.duration_since(UNIX_EPOCH) {
        Ok(elapsed) => Some((elapsed.as_secs(), elapsed.subsec_nanos())),
        Err(_) => None,
    }
}

/// The time since the Unix epoch, if the clock has got there. Which point in
/// time the clock shows is not said.
pub fn reading() -> (elapsed: Option<(u64, u32)>)
    ensures
        is_reading(elapsed),
{
    since_epoch(SystemTime::now())
}

/// A reading tells its point in time to the nanosecond.
pub proof fn law_reading_is_of_a_point_in_time(elapsed: Option<(u64, u32)>)
    requires
        is_reading(elapsed),
    ensures
        match elapsed {
            Some((seconds, nanos)) => nanos < 1_000_000_000 && exists|time: SystemTime| #[trigger]
                nanos_since_epoch(time) == seconds * 1_000_000_000 + nanos,
            None => exists|time: SystemTime| #[trigger] nanos_since_epoch(time) < 0,
        },
{
}

} // verus!
