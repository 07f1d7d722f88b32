use breakout_core::timer::Timer;
use std::time::SystemTime;

#[test]
fn timer_starts_now() {
    let before = SystemTime::now();
    let timer = Timer::new();
    let after = SystemTime::now();
    assert!(before <= timer.start_time());
    assert!(timer.start_time() <= after);
}

#[test]
fn timer_from_given_start_time() {
    let start = SystemTime::UNIX_EPOCH;
    assert_eq!(Timer::from_start_time(start).start_time(), start);
}
