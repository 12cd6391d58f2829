//! The clock.

use std::time::{SystemTime, UNIX_EPOCH};
use vstd::prelude::*;

verus! {

/// `SystemTime::now`, in milliseconds since the Unix epoch; `None` for a clock that stands
/// before the epoch. Nothing is claimed of the value: the clock may stand anywhere, and may
/// be set back.
#[verifier::external_body]
fn system_time_ms() -> (reading: Option<u64>) {
    match SystemTime::now().duration_since(UNIX_EPOCH) {
        Ok(d) => Some(d.as_millis() as u64),
        Err(_) => None,
    }
}

/// The time in milliseconds since the Unix epoch; a clock that stands before the epoch
/// stands for the epoch itself.
pub(crate) fn now_ms() -> (now: u64)
    ensures
        clock_reads(now),
{
    time_of_reading(called(system_time_ms))
}

/// Whether `reading` is one that the system clock can give.
pub closed spec fn system_clock_gives(reading: Option<u64>) -> bool {
    call_ensures(system_time_ms, (), reading)
}

/// Whether `now` is a time that a reading of the system clock stands for.
pub open spec fn clock_reads(now: u64) -> bool {
    ||| system_clock_gives(Some(now))
    ||| now == 0 && system_clock_gives(None)
}

/// A time is read of the system clock alone: it is a reading that the clock gives, or the
/// epoch where the clock gives none.
pub proof fn time_is_read_of_the_clock(now: u64)
    ensures
        clock_reads(now) && now > 0 ==> system_clock_gives(Some(now)),
        clock_reads(0) ==> system_clock_gives(Some(0)) || system_clock_gives(None),
        system_clock_gives(Some(now)) ==> clock_reads(now),
        system_clock_gives(None) ==> clock_reads(0),
{
    given_by_the_system(Some(now));
    given_by_the_system(None);
}

/// What the system clock gives is what `system_time_ms` returns.
proof fn given_by_the_system(reading: Option<u64>)
    ensures
        system_clock_gives(reading) <==> call_ensures(system_time_ms, (), reading),
{
}

/// What a function returns when it is called, and nothing else.
fn called<F: FnOnce() -> Option<u64>>(f: F) -> (out: Option<u64>)
    requires
        f.requires(()),
    ensures
        f.ensures((), out),
{
    f()
}

/// The time that a reading of the clock stands for.
pub fn time_of_reading(reading: Option<u64>) -> (now: u64)
    ensures
        reading matches Some(ms) ==> now == ms,
        reading is None ==> now == 0,
{
    match reading {
        Some(ms) => ms,
        None => 0,
    }
}

} // verus!
