use std::time::Duration;
use task_scheduler::clock::{Timestamp, MILLIS_PER_DAY};
use task_scheduler::time::Time;

fn t(hour: u8, minute: u8, second: u8) -> Time {
    Time { hour, minute, second }
}

fn at(hour: u32, minute: u32, second: u32, millis: u32) -> Timestamp {
    Timestamp { hour, minute, second, nanosecond: millis * 1_000_000 }
}

#[test]
fn duration_until_a_time_half_a_second_ahead() {
    assert_eq!(t(8, 0, 0).duration_from(at(7, 59, 59, 500)), Duration::from_millis(500));
    assert_eq!(t(8, 0, 0).millis_from(at(7, 59, 59, 500)), 500);
}

#[test]
fn duration_until_a_time_just_missed_is_nearly_a_day() {
    let expected = Duration::from_secs(23 * 3600 + 59 * 60 + 59) + Duration::from_millis(500);
    assert_eq!(t(8, 0, 0).duration_from(at(8, 0, 0, 500)), expected);
    assert_eq!(t(8, 0, 0).millis_from(at(8, 0, 0, 500)), 86_399_500);
}

#[test]
fn duration_until_the_time_shown_is_nothing() {
    assert_eq!(t(8, 0, 0).duration_from(at(8, 0, 0, 0)), Duration::from_millis(0));
    assert_eq!(t(0, 0, 0).millis_from(at(0, 0, 0, 0)), 0);
}

#[test]
fn duration_counts_hours_minutes_and_seconds() {
    assert_eq!(t(10, 30, 15).millis_from(at(8, 15, 5, 250)), 8_109_750);
    assert_eq!(
        t(10, 30, 15).duration_from(at(8, 15, 5, 250)),
        Duration::from_millis(8_109_750)
    );
}

#[test]
fn duration_wraps_over_midnight() {
    assert_eq!(t(0, 0, 5).millis_from(at(23, 59, 55, 0)), 10_000);
    assert_eq!(t(0, 0, 0).millis_from(at(23, 59, 59, 999)), 1);
}

#[test]
fn duration_is_always_less_than_a_day() {
    let times = [t(0, 0, 0), t(8, 0, 0), t(23, 59, 59)];
    let readings = [at(0, 0, 0, 0), at(0, 0, 0, 1), at(8, 0, 0, 0), at(23, 59, 59, 999)];
    for time in times {
        for reading in readings {
            assert!(time.millis_from(reading) < MILLIS_PER_DAY);
        }
    }
    assert_eq!(t(0, 0, 0).millis_from(at(0, 0, 0, 1)), 86_399_999);
}

#[test]
fn duration_ignores_what_is_below_a_millisecond() {
    let reading = Timestamp { hour: 7, minute: 59, second: 59, nanosecond: 500_999_999 };
    assert_eq!(t(8, 0, 0).millis_from(reading), 500);
}

#[test]
fn duration_in_a_leap_second() {
    let reading = Timestamp { hour: 23, minute: 59, second: 59, nanosecond: 1_500_000_000 };
    assert_eq!(t(0, 0, 1).millis_from(reading), 500);
    assert_eq!(t(0, 0, 0).millis_from(reading), 86_399_500);
}

#[test]
fn time_of_a_reading_drops_the_fraction() {
    assert_eq!(Time::from(at(7, 59, 59, 500)), t(7, 59, 59));
    assert_eq!(Time::from(at(0, 0, 0, 0)), t(0, 0, 0));
    assert_eq!(Time::from(at(23, 59, 59, 999)), t(23, 59, 59));
}

#[test]
fn time_of_a_reading_off_the_clock_face_is_brought_back() {
    assert_eq!(Time::from(at(24, 0, 0, 0)), t(0, 0, 0));
    assert_eq!(Time::from(at(0, 60, 0, 0)), t(1, 0, 0));
    assert_eq!(Time::from(at(25, 61, 61, 0)), t(2, 2, 1));
}
