//! Readings of the wall clock, and the time left until a time of day.

use crate::time::Time;
use std::time::Duration;
use vstd::prelude::*;

verus! {

/// The number of milliseconds in a day.
pub const MILLIS_PER_DAY: u64 = 86_400_000;

/// A reading of the wall clock: a time of day to the nanosecond.
///
/// A reading is [`valid`](Timestamp::valid) when its hour, minute and second
/// are on the clock face. In a leap second the nanoseconds run from
/// 1,000,000,000 to 1,999,999,999 while the second stays at 59.
#[derive(Debug, PartialEq, Eq, Structural, Clone, Copy)]
pub struct Timestamp {
    pub hour: u32,
    pub minute: u32,
    pub second: u32,
    pub nanosecond: u32,
}

impl Timestamp {
    /// The hour, minute and second are on the clock face, and the
    /// nanoseconds are below two seconds.
    pub open spec fn valid(self) -> bool {
        self.hour < 24 && self.minute < 60 && self.second < 60 && self.nanosecond < 2_000_000_000
    }

    /// Whole seconds since midnight.
    pub open spec fn seconds(self) -> int {
        self.hour * 3600 + self.minute * 60 + self.second
    }

    /// Whole milliseconds since midnight.
    pub open spec fn millis(self) -> int {
        self.seconds() * 1000 + self.nanosecond / 1_000_000
    }

    /// The time of day of the reading, to the second.
    pub open spec fn time(self) -> Time {
        Time::of_seconds(self.seconds())
    }
}

/// The span of time that `Duration::from_millis` makes of a count of
/// milliseconds.
pub uninterp spec fn duration_of_millis(millis: u64) -> Duration;

/// `std::time::Duration::from_millis`.
///
/// Trusted: the span it returns is decided by the count of milliseconds
/// alone; [`duration_of_millis`] is its name. It takes every count and does
/// not panic.
pub assume_specification[ Duration::from_millis ](millis: u64) -> (duration: Duration)
    ensures
        duration == duration_of_millis(millis),
;

impl From<Timestamp> for Time {
    /// The time of day of a reading, to the second.
    fn from(time: Timestamp) -> (r: Time)
        ensures
            r.valid(),
            time.valid() ==> r.hour == time.hour && r.minute == time.minute && r.second
                == time.second,
    {
        let seconds: u64 = time.hour as u64 * 3600 + time.minute as u64 * 60 + time.second as u64;
        proof {
            if time.valid() {
                Time::lemma_of_seconds_fields(
                    time.hour as int,
                    time.minute as int,
                    time.second as int,
                    seconds as int,
                );
            }
            assert((seconds % 86400) as int % 86400 == seconds as int % 86400);
        }
        Time::second((seconds % 86400) as usize)
    }
}

impl vstd::std_specs::convert::FromSpecImpl<Timestamp> for Time {
    open spec fn obeys_from_spec() -> bool {
        true
    }

    open spec fn from_spec(time: Timestamp) -> Time {
        time.time()
    }
}

impl Time {
    /// The milliseconds from `now` until the clock next shows `self`: none
    /// when it shows it to the millisecond, and less than a day otherwise.
    pub open spec fn millis_after(self, now: Timestamp) -> int {
        (self.seconds() * 1000 - now.millis()) % 86_400_000
    }

    /// The milliseconds from `time` until the clock next shows `self`.
    pub fn millis_from(&self, time: Timestamp) -> (millis: u64)
        ensures
            millis == self.millis_after(time),
            millis < MILLIS_PER_DAY,
    {
        let to: u64 = (self.hour as u64 * 3600 + self.minute as u64 * 60 + self.second as u64)
            * 1000;
        let from: u64 = (time.hour as u64 * 3600 + time.minute as u64 * 60 + time.second as u64)
            * 1000 + (time.nanosecond / 1_000_000) as u64;
        let ahead: u64 = to % MILLIS_PER_DAY + MILLIS_PER_DAY - from % MILLIS_PER_DAY;
        ahead % MILLIS_PER_DAY
    }

    /// The time from `time` until the clock next shows `self`.
    pub fn duration_from(&self, time: Timestamp) -> (duration: Duration)
        ensures
            duration == duration_of_millis(self.millis_after(time) as u64),
    {
        Duration::from_millis(self.millis_from(time))
    }
}

} // verus!
