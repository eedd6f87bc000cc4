//! The periodic timer's emission schedule.

use subscriptions::time::{emissions_by, every, nth_emission_nanos};

const MILLI: u64 = 1_000_000;

#[test]
fn first_emission_after_one_interval() {
    // every(100ms): first timestamp at 100ms, second at 200ms, and so on
    assert_eq!(nth_emission_nanos(100 * MILLI, 0), Some(100 * MILLI));
    assert_eq!(nth_emission_nanos(100 * MILLI, 1), Some(200 * MILLI));
    assert_eq!(nth_emission_nanos(100 * MILLI, 2), Some(300 * MILLI));
}

#[test]
fn no_emission_before_one_interval() {
    assert_eq!(emissions_by(0, 100 * MILLI), 0);
    assert_eq!(emissions_by(100 * MILLI - 1, 100 * MILLI), 0);
    assert_eq!(emissions_by(100 * MILLI, 100 * MILLI), 1);
}

#[test]
fn fifty_ms_emits_thrice_within_two_hundred_ms() {
    // by the time every(200ms) emits its first value, every(50ms) has
    // emitted four, hence at least three
    let first_of_slow = nth_emission_nanos(200 * MILLI, 0).unwrap();
    assert!(emissions_by(first_of_slow, 50 * MILLI) >= 3);
    assert_eq!(emissions_by(first_of_slow, 50 * MILLI), 4);
    assert_eq!(emissions_by(first_of_slow, 200 * MILLI), 1);
}

#[test]
fn emission_instant_overflow_is_reported() {
    assert_eq!(nth_emission_nanos(u64::MAX, 0), Some(u64::MAX));
    assert_eq!(nth_emission_nanos(u64::MAX, 1), None);
    assert_eq!(nth_emission_nanos(2, u64::MAX), None);
}

#[test]
fn every_carries_its_duration() {
    let s = every(100 * MILLI);
    let subscriptions::subscription::Recipe::PeriodicTimer { interval_nanos } = s.recipe();
    assert_eq!(interval_nanos, 100 * MILLI);
}
