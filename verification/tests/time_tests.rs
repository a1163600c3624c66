use std::cmp::Ordering;
use task_scheduler::time::Time;

fn t(hour: u8, minute: u8, second: u8) -> Time {
    Time { hour, minute, second }
}

#[test]
fn add_carries_seconds_and_minutes() {
    assert_eq!(t(9, 59, 30) + t(0, 0, 45), t(10, 0, 15));
    assert_eq!(t(1, 2, 3) + t(4, 5, 6), t(5, 7, 9));
}

#[test]
fn add_wraps_at_midnight() {
    assert_eq!(t(23, 30, 0) + t(1, 45, 10), t(1, 15, 10));
    assert_eq!(t(23, 59, 59) + t(0, 0, 1), t(0, 0, 0));
    assert_eq!(t(23, 59, 59) + t(23, 59, 59), t(23, 59, 58));
}

#[test]
fn add_brings_fields_past_their_range_back() {
    assert_eq!(t(0, 0, 255) + t(0, 0, 255), t(0, 8, 30));
    assert_eq!(t(255, 255, 255) + t(0, 0, 0), t(19, 19, 15));
}

#[test]
fn sub_borrows_and_wraps() {
    assert_eq!(t(9, 0, 0) - t(0, 0, 30), t(8, 59, 30));
    assert_eq!(t(0, 0, 10) - t(0, 0, 30), t(23, 59, 40));
    assert_eq!(t(0, 0, 0) - t(23, 59, 59), t(0, 0, 1));
    assert_eq!(t(12, 0, 0) - t(12, 0, 0), t(0, 0, 0));
}

#[test]
fn sub_brings_fields_past_their_range_back() {
    assert_eq!(t(0, 0, 255) - t(0, 0, 0), t(0, 4, 15));
    assert_eq!(t(0, 0, 0) - t(255, 255, 255), t(4, 40, 45));
}

#[test]
fn sub_undoes_add_on_sample_times() {
    let samples = [t(0, 0, 0), t(0, 0, 1), t(8, 59, 30), t(12, 34, 56), t(23, 59, 59)];
    for a in samples {
        for b in samples {
            assert_eq!((a + b) - b, a);
            assert_eq!((a - b) + b, a);
        }
    }
}

#[test]
fn a_whole_day_of_seconds_changes_nothing() {
    let day = Time::second(86_400);
    assert_eq!(day, t(0, 0, 0));
    for a in [t(0, 0, 0), t(8, 59, 30), t(23, 59, 59)] {
        assert_eq!(a + day, a);
        assert_eq!(a - day, a);
        assert_eq!(a + Time::second(3 * 86_400), a);
    }
}

#[test]
fn second_splits_a_count_of_seconds() {
    assert_eq!(Time::second(0), t(0, 0, 0));
    assert_eq!(Time::second(30), t(0, 0, 30));
    assert_eq!(Time::second(59), t(0, 0, 59));
    assert_eq!(Time::second(60), t(0, 1, 0));
    assert_eq!(Time::second(3_599), t(0, 59, 59));
    assert_eq!(Time::second(3_600), t(1, 0, 0));
    assert_eq!(Time::second(32_370), t(8, 59, 30));
    assert_eq!(Time::second(86_399), t(23, 59, 59));
}

#[test]
fn second_drops_whole_days() {
    assert_eq!(Time::second(86_400), t(0, 0, 0));
    assert_eq!(Time::second(86_401), t(0, 0, 1));
    assert_eq!(Time::second(2 * 86_400 + 3_661), t(1, 1, 1));
    assert_eq!(Time::second(4_294_967_295), t(6, 28, 15));
}

#[test]
fn times_order_by_hour_then_minute_then_second() {
    assert!(t(8, 59, 59) < t(9, 0, 0));
    assert!(t(9, 0, 0) < t(9, 0, 1));
    assert!(t(9, 0, 59) < t(9, 1, 0));
    assert!(t(9, 30, 0) > t(9, 29, 59));
    assert!(t(9, 0, 0) <= t(9, 0, 0));
    assert!(t(9, 0, 0) >= t(9, 0, 0));
    assert!(!(t(9, 0, 0) < t(9, 0, 0)));
    assert_eq!(t(1, 59, 59).partial_cmp(&t(2, 0, 0)), Some(Ordering::Less));
    assert_eq!(t(2, 0, 0).partial_cmp(&t(2, 0, 0)), Some(Ordering::Equal));
    assert_eq!(t(2, 0, 1).partial_cmp(&t(2, 0, 0)), Some(Ordering::Greater));
}

#[test]
fn cmp_agrees_with_partial_cmp() {
    let samples = [t(0, 0, 0), t(0, 0, 59), t(0, 59, 0), t(1, 0, 0), t(23, 59, 59)];
    for a in samples {
        for b in samples {
            assert_eq!(Some(a.cmp(&b)), a.partial_cmp(&b));
            assert_eq!(a.is_before(&b), a < b);
        }
    }
}

#[test]
fn is_before_is_strict() {
    assert!(t(8, 0, 0).is_before(&t(8, 0, 1)));
    assert!(!t(8, 0, 1).is_before(&t(8, 0, 0)));
    assert!(!t(8, 0, 0).is_before(&t(8, 0, 0)));
}

#[test]
fn equality_is_by_field() {
    assert_eq!(t(1, 2, 3), t(1, 2, 3));
    assert_ne!(t(1, 2, 3), t(1, 2, 4));
    assert_ne!(t(0, 60, 0), t(1, 0, 0));
}

#[test]
fn default_time_is_midnight() {
    assert_eq!(Time::default(), t(0, 0, 0));
}

#[test]
fn is_valid_checks_each_field() {
    assert!(t(0, 0, 0).is_valid());
    assert!(t(23, 59, 59).is_valid());
    assert!(!t(24, 0, 0).is_valid());
    assert!(!t(0, 60, 0).is_valid());
    assert!(!t(0, 0, 60).is_valid());
}
