use std::sync::Arc;
use sum100::clock::{clamp_reading, Clock, ReplayClock, WallClock};

#[test]
fn replay_clock_is_shared_and_monotonic() {
    let clock = ReplayClock::new();
    let reader: Arc<dyn Clock> = Arc::new(clock.clone());
    assert_eq!(reader.now_ms(), 0);
    clock.advance_to(1_789_343_120_404);
    assert_eq!(reader.now_ms(), 1_789_343_120_404);
    clock.advance_to(1_789_343_120_000);
    assert_eq!(reader.now_ms(), 1_789_343_120_404);
}

#[test]
fn wall_clock_reads_epoch_milliseconds() {
    // 2026-01-01T00:00:00Z; a wall clock before this is misconfigured.
    assert!(WallClock.now_ms() > 1_767_225_600_000);
}

#[test]
fn a_reading_outside_the_counter_is_clamped() {
    assert_eq!(clamp_reading(None), 0);
    assert_eq!(clamp_reading(Some(41)), 41);
    assert_eq!(clamp_reading(Some(u128::MAX)), u64::MAX);
}
