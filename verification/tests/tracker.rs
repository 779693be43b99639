use file_rotator::rotation_tracker::{calc_next_rotation, RotationTracker};
use file_rotator::RotationPeriod;

#[test]
fn test_manual() {
    let mut tracker = RotationTracker::new(RotationPeriod::Manual, 0);
    assert!(!tracker.should_rotate(0));
    tracker.wrote(b"hello, world");
    assert!(!tracker.should_rotate(0));
    tracker.reset(0);
    assert!(!tracker.should_rotate(0));
}

#[test]
fn test_bytes_threshold() {
    let mut tracker = RotationTracker::new(RotationPeriod::Bytes(10), 0);
    assert!(!tracker.should_rotate(0));
    tracker.wrote(b"123456789");
    assert!(!tracker.should_rotate(0));
    tracker.wrote(b"0");
    assert!(tracker.should_rotate(0));
    tracker.reset(0);
    assert!(!tracker.should_rotate(0));
}

#[test]
fn test_bytes_zero_period_rotates_immediately() {
    let tracker = RotationTracker::new(RotationPeriod::Bytes(0), 0);
    assert!(tracker.should_rotate(0));
}

#[test]
fn test_lines_threshold() {
    let mut tracker = RotationTracker::new(RotationPeriod::Lines(3), 0);
    tracker.wrote(b"no newline at all");
    assert!(!tracker.should_rotate(0));
    tracker.wrote(b"one\ntwo\n");
    assert!(!tracker.should_rotate(0));
    tracker.wrote(b"three\nfour");
    assert!(tracker.should_rotate(0));
    tracker.reset(0);
    assert!(!tracker.should_rotate(0));
}

#[test]
fn test_lines_zero_period_rotates_immediately() {
    let tracker = RotationTracker::new(RotationPeriod::Lines(0), 0);
    assert!(tracker.should_rotate(0));
}

#[test]
fn test_interval_uses_injected_clock() {
    let mut tracker = RotationTracker::new(RotationPeriod::Interval(100), 1000);
    assert!(!tracker.should_rotate(1000));
    assert!(!tracker.should_rotate(1099));
    assert!(tracker.should_rotate(1100));
    assert!(tracker.should_rotate(5000));
    tracker.wrote(b"writes never matter for the interval policy");
    assert!(!tracker.should_rotate(1099));
    tracker.reset(1100);
    assert!(!tracker.should_rotate(1199));
    assert!(tracker.should_rotate(1200));
}

#[test]
fn test_next_rotation_saturates() {
    assert_eq!(calc_next_rotation(7, 100), 107);
    assert_eq!(calc_next_rotation(u64::MAX, 5), u64::MAX);
    assert_eq!(calc_next_rotation(u64::MAX - 3, 3), u64::MAX);
}
