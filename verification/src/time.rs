//! Times of day, with arithmetic that wraps at midnight.

use std::cmp::Ordering;
use std::ops::{Add, Sub};
use vstd::arithmetic::div_mod::lemma_mod_multiples_vanish;
use vstd::prelude::*;
use vstd::std_specs::cmp::PartialOrdSpecImpl;

verus! {

/// The number of seconds in a day.
pub const SECONDS_PER_DAY: usize = 86400;

/// A time of day, to the second.
///
/// A time is [`valid`](Time::valid) when it names an instant of the clock face:
/// an hour below 24, a minute and a second below 60.
#[derive(Debug, PartialEq, Eq, Structural, Clone, Copy, Ord)]
pub struct Time {
    pub hour: u8,
    pub minute: u8,
    pub second: u8,
}

impl Time {
    /// The fields name an instant between 00:00:00 and 23:59:59.
    pub open spec fn valid(self) -> bool {
        self.hour < 24 && self.minute < 60 && self.second < 60
    }

    /// Seconds since midnight.
    pub open spec fn seconds(self) -> int {
        self.hour * 3600 + self.minute * 60 + self.second
    }

    /// The time of day that lies `n` seconds after a midnight, for any `n`:
    /// whole days are dropped, and a negative `n` counts back from midnight.
    pub open spec fn of_seconds(n: int) -> Time {
        let r = n % 86400;
        Time { hour: (r / 3600) as u8, minute: (r / 60 % 60) as u8, second: (r % 60) as u8 }
    }

    /// The sum of two times: the time that lies as many seconds after
    /// midnight as both together, whole days dropped.
    pub open spec fn plus(self, other: Time) -> Time {
        Time::of_seconds(self.seconds() + other.seconds())
    }

    /// The difference of two times: the time that lies as many seconds
    /// before `self` as `other` lies after midnight, whole days dropped.
    pub open spec fn minus(self, other: Time) -> Time {
        Time::of_seconds(self.seconds() - other.seconds())
    }

    /// `self` comes strictly before `other` on the clock face: hours decide,
    /// then minutes, then seconds.
    pub open spec fn before(self, other: Time) -> bool {
        self.hour < other.hour || (self.hour == other.hour && (self.minute < other.minute || (
            self.minute == other.minute && self.second < other.second)))
    }

    /// How `self` stands to `other` on the clock face.
    pub open spec fn compare(self, other: Time) -> Ordering {
        if self.before(other) {
            Ordering::Less
        } else if self == other {
            Ordering::Equal
        } else {
            Ordering::Greater
        }
    }

    /// `self` comes before `other` or is the same time.
    pub open spec fn at_or_before(self, other: Time) -> bool {
        self.before(other) || self == other
    }

    /// The fields of `Time::of_seconds(n)` are the only valid ones that lie
    /// `n` seconds after a midnight.
    #[verifier::rlimit(40)]
    pub proof fn lemma_of_seconds_fields(hour: int, minute: int, second: int, n: int)
        requires
            0 <= hour < 24,
            0 <= minute < 60,
            0 <= second < 60,
            (hour * 3600 + minute * 60 + second) % 86400 == n % 86400,
        ensures
            Time::of_seconds(n) == (Time {
                hour: hour as u8,
                minute: minute as u8,
                second: second as u8,
            }),
    {
        let r = n % 86400;
        assert(r == hour * 3600 + minute * 60 + second);
        assert(r / 60 == hour * 60 + minute);
        assert(r / 3600 == hour);
        assert(r / 60 % 60 == minute);
        assert(r % 60 == second);
    }

    /// Valid fields that lie `n` seconds after a midnight, some days earlier or
    /// later, are those of `Time::of_seconds(n)`.
    pub proof fn lemma_of_seconds_days_apart(
        hour: int,
        minute: int,
        second: int,
        n: int,
        days: int,
    )
        requires
            0 <= hour < 24,
            0 <= minute < 60,
            0 <= second < 60,
            hour * 3600 + minute * 60 + second == n + 86400 * days,
        ensures
            Time::of_seconds(n) == (Time {
                hour: hour as u8,
                minute: minute as u8,
                second: second as u8,
            }),
    {
        assert((86400 * days + n) % 86400 == n % 86400) by {
            lemma_mod_multiples_vanish(days, n, 86400);
        }
        Time::lemma_of_seconds_fields(hour, minute, second, n);
    }

    /// `Time::of_seconds(n)` is a valid time, `n` seconds after a midnight.
    #[verifier::rlimit(40)]
    pub proof fn lemma_of_seconds_valid(n: int)
        ensures
            Time::of_seconds(n).valid(),
            Time::of_seconds(n).seconds() == n % 86400,
    {
        let r = n % 86400;
        assert(0 <= r / 3600 < 24);
        assert(0 <= r / 60 % 60 < 60);
        assert(0 <= r % 60 < 60);
        assert(r == (r / 3600) * 3600 + (r / 60 % 60) * 60 + r % 60);
    }

    /// A valid time is the one that its seconds since midnight name.
    pub proof fn lemma_of_seconds_inverts(self)
        requires
            self.valid(),
        ensures
            Time::of_seconds(self.seconds()) == self,
    {
        Time::lemma_of_seconds_fields(
            self.hour as int,
            self.minute as int,
            self.second as int,
            self.seconds(),
        );
    }

    /// Times are in a total order: of two times one is before the other or
    /// they are the same, never two of these at once, and what is before an
    /// earlier time is before a later one.
    pub proof fn lemma_order_is_total(a: Time, b: Time, c: Time)
        ensures
            a.before(b) || a == b || b.before(a),
            !(a.before(b) && b.before(a)),
            !a.before(a),
            a.before(b) && b.before(c) ==> a.before(c),
            a.at_or_before(b) <==> !b.before(a),
    {
    }

    /// Valid times come in the order of their seconds since midnight.
    pub proof fn lemma_before_is_fewer_seconds(self, other: Time)
        requires
            self.valid(),
            other.valid(),
        ensures
            self.before(other) <==> self.seconds() < other.seconds(),
            self == other <==> self.seconds() == other.seconds(),
    {
    }

    /// Subtraction undoes addition: taking `b` away from `a + b` gives `a`
    /// back, through any number of midnights.
    #[verifier::rlimit(40)]
    pub proof fn lemma_sub_undoes_add(a: Time, b: Time)
        requires
            a.valid(),
        ensures
            a.plus(b).minus(b) == a,
    {
        let sum = a.seconds() + b.seconds();
        let days = sum / 86400;
        let rest = sum % 86400 - b.seconds();
        Time::lemma_of_seconds_valid(sum);
        assert(rest % 86400 == a.seconds() % 86400) by {
            assert(rest == 86400 * (-days) + a.seconds());
            lemma_mod_multiples_vanish(-days, a.seconds(), 86400);
        }
        Time::lemma_of_seconds_fields(a.hour as int, a.minute as int, a.second as int, rest);
    }

    /// Addition undoes subtraction: adding `b` to `a - b` gives `a` back.
    #[verifier::rlimit(40)]
    pub proof fn lemma_add_undoes_sub(a: Time, b: Time)
        requires
            a.valid(),
        ensures
            a.minus(b).plus(b) == a,
    {
        let difference = a.seconds() - b.seconds();
        let days = difference / 86400;
        let rest = difference % 86400 + b.seconds();
        Time::lemma_of_seconds_valid(difference);
        assert(rest % 86400 == a.seconds() % 86400) by {
            assert(rest == 86400 * (-days) + a.seconds());
            lemma_mod_multiples_vanish(-days, a.seconds(), 86400);
        }
        Time::lemma_of_seconds_fields(a.hour as int, a.minute as int, a.second as int, rest);
    }

    /// Whole days leave a time where it was: adding or subtracting any
    /// number of days' worth of seconds gives the same time of day.
    #[verifier::rlimit(40)]
    pub proof fn lemma_whole_days_vanish(t: Time, days: int)
        requires
            t.valid(),
        ensures
            Time::of_seconds(days * 86400) == (Time { hour: 0, minute: 0, second: 0 }),
            t.plus(Time::of_seconds(days * 86400)) == t,
            t.minus(Time::of_seconds(days * 86400)) == t,
    {
        let midnight = Time { hour: 0, minute: 0, second: 0 };
        assert(Time::of_seconds(days * 86400) == midnight) by {
            Time::lemma_of_seconds_days_apart(0, 0, 0, days * 86400, -days);
        }
        assert(t.seconds() + midnight.seconds() == t.seconds());
        assert(t.seconds() - midnight.seconds() == t.seconds());
        t.lemma_of_seconds_inverts();
    }

    /// Whether the fields name an instant between 00:00:00 and 23:59:59.
    pub fn is_valid(&self) -> (r: bool)
        ensures
            r == self.valid(),
    {
        self.hour < 24 && self.minute < 60 && self.second < 60
    }

    /// Whether `self` comes strictly before `other` on the clock face.
    pub fn is_before(&self, other: &Time) -> (r: bool)
        ensures
            r == self.before(*other),
    {
        self.hour < other.hour || (self.hour == other.hour && (self.minute < other.minute || (
            self.minute == other.minute && self.second < other.second)))
    }

    /// A count of seconds as a time of day; whole days are dropped.
    pub fn second(second: usize) -> (r: Self)
        ensures
            r == Time::of_seconds(second as int),
            r.valid(),
    {
        let rest: usize = second % SECONDS_PER_DAY;
        proof {
            Time::lemma_of_seconds_valid(second as int);
        }
        Time {
            hour: (rest / 3600) as u8,
            minute: (rest / 60 % 60) as u8,
            second: (rest % 60) as u8,
        }
    }
}

impl PartialOrd for Time {
    /// Orders two times by hour, then minute, then second.
    fn partial_cmp(&self, other: &Self) -> (r: Option<Ordering>) {
        if self.hour != other.hour {
            if self.hour < other.hour {
                Some(Ordering::Less)
            } else {
                Some(Ordering::Greater)
            }
        } else if self.minute != other.minute {
            if self.minute < other.minute {
                Some(Ordering::Less)
            } else {
                Some(Ordering::Greater)
            }
        } else if self.second != other.second {
            if self.second < other.second {
                Some(Ordering::Less)
            } else {
                Some(Ordering::Greater)
            }
        } else {
            Some(Ordering::Equal)
        }
    }
}

impl PartialOrdSpecImpl for Time {
    open spec fn obeys_partial_cmp_spec() -> bool {
        true
    }

    open spec fn partial_cmp_spec(&self, other: &Self) -> Option<Ordering> {
        Some(self.compare(*other))
    }
}

impl Add for Time {
    type Output = Self;

    /// Adds field by field, carrying seconds into minutes and minutes into
    /// hours; hours past 23 start again at 0.
    #[verifier::rlimit(40)]
    fn add(self, other: Self) -> (r: Self)
        ensures
            r.valid(),
    {
        let ghost total = self.seconds() + other.seconds();
        let mut second: i32 = self.second as i32 + other.second as i32;
        let mut minute: i32 = self.minute as i32 + other.minute as i32;
        let mut hour: i32 = self.hour as i32 + other.hour as i32;

        while second >= 60
            invariant
                0 <= second <= 510,
                0 <= minute <= 510 + (510 - second) / 60,
                0 <= hour <= 510,
                hour * 3600 + minute * 60 + second == total,
            decreases second,
        {
            second -= 60;
            minute += 1;
        }

        while minute >= 60
            invariant
                0 <= second < 60,
                0 <= minute <= 520,
                0 <= hour <= 510 + (520 - minute) / 60,
                hour * 3600 + minute * 60 + second == total,
            decreases minute,
        {
            minute -= 60;
            hour += 1;
        }

        let ghost days: int = 0;
        while hour >= 24
            invariant
                0 <= second < 60,
                0 <= minute < 60,
                0 <= hour <= 520,
                hour * 3600 + minute * 60 + second == total + 86400 * days,
            decreases hour,
        {
            hour -= 24;
            proof {
                days = days - 1;
            }
        }

        proof {
            Time::lemma_of_seconds_days_apart(
                hour as int,
                minute as int,
                second as int,
                total,
                days,
            );
        }
        let r = Time { hour: hour as u8, minute: minute as u8, second: second as u8 };
        assert(r == Time::of_seconds(self.seconds() + other.seconds()));
        r
    }
}

impl vstd::std_specs::ops::AddSpecImpl for Time {
    open spec fn obeys_add_spec() -> bool {
        true
    }

    open spec fn add_req(self, other: Self) -> bool {
        true
    }

    /// `self + other` is [`Time::plus`].
    open spec fn add_spec(self, other: Self) -> Self {
        self.plus(other)
    }
}

impl Sub for Time {
    type Output = Self;

    /// Subtracts field by field, borrowing from minutes and from hours, and
    /// carrying where a field was past its range; hours below 0 start again at
    /// 23.
    #[verifier::rlimit(40)]
    fn sub(self, other: Self) -> (r: Self)
        ensures
            r.valid(),
    {
        let ghost total = self.seconds() - other.seconds();
        let mut second: i32 = self.second as i32 - other.second as i32;
        let mut minute: i32 = self.minute as i32 - other.minute as i32;
        let mut hour: i32 = self.hour as i32 - other.hour as i32;

        while second < 0
            invariant
                -255 <= second <= 255,
                -15555 <= minute * 60 + second <= 15555,
                -255 <= hour <= 255,
                hour * 3600 + minute * 60 + second == total,
            decreases 60 - second,
        {
            second += 60;
            minute -= 1;
        }

        while second >= 60
            invariant
                0 <= second <= 255,
                -15555 <= minute * 60 + second <= 15555,
                -255 <= hour <= 255,
                hour * 3600 + minute * 60 + second == total,
            decreases second,
        {
            second -= 60;
            minute += 1;
        }

        while minute < 0
            invariant
                0 <= second < 60,
                -264 <= minute <= 260,
                -15564 <= hour * 60 + minute <= 15560,
                hour * 3600 + minute * 60 + second == total,
            decreases 60 - minute,
        {
            minute += 60;
            hour -= 1;
        }

        while minute >= 60
            invariant
                0 <= second < 60,
                0 <= minute <= 260,
                -15564 <= hour * 60 + minute <= 15560,
                hour * 3600 + minute * 60 + second == total,
            decreases minute,
        {
            minute -= 60;
            hour += 1;
        }

        let ghost days: int = 0;
        while hour < 0
            invariant
                0 <= second < 60,
                0 <= minute < 60,
                -260 <= hour <= 260,
                hour * 3600 + minute * 60 + second == total + 86400 * days,
            decreases 24 - hour,
        {
            hour += 24;
            proof {
                days = days + 1;
            }
        }

        while hour >= 24
            invariant
                0 <= second < 60,
                0 <= minute < 60,
                0 <= hour <= 260,
                hour * 3600 + minute * 60 + second == total + 86400 * days,
            decreases hour,
        {
            hour -= 24;
            proof {
                days = days - 1;
            }
        }

        proof {
            Time::lemma_of_seconds_days_apart(
                hour as int,
                minute as int,
                second as int,
                total,
                days,
            );
        }
        let r = Time { hour: hour as u8, minute: minute as u8, second: second as u8 };
        assert(r == Time::of_seconds(self.seconds() - other.seconds()));
        r
    }
}

impl vstd::std_specs::ops::SubSpecImpl for Time {
    open spec fn obeys_sub_spec() -> bool {
        true
    }

    open spec fn sub_req(self, other: Self) -> bool {
        true
    }

    /// `self - other` is [`Time::minus`].
    open spec fn sub_spec(self, other: Self) -> Self {
        self.minus(other)
    }
}

impl Default for Time {
    /// Midnight.
    fn default() -> (r: Self)
        ensures
            r == (Time { hour: 0, minute: 0, second: 0 }),
    {
        Time { hour: 0, minute: 0, second: 0 }
    }
}

} // verus!
