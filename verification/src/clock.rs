//! Injected engine clock. `WallClock` is the only place in the library that
//! reads wall-clock time; everything else receives a [`Clock`]. Under replay,
//! [`ReplayClock`] follows recorded local receipt timestamps, never venue `ts`
//! fields, so freshness decisions reproduce exactly.
use vstd::prelude::*;
use std::sync::atomic::{AtomicU64, Ordering};
use std::sync::Arc;
use std::time::{Duration, SystemTime};

verus! {

#[verifier::external_type_specification]
#[verifier::external_body]
pub struct ExSystemTime(std::time::SystemTime);

/// `SystemTime::now` reads the machine's clock. Nothing is claimed of the
/// reading.
pub assume_specification[ SystemTime::now ]() -> SystemTime;

/// `Duration::as_millis` is the duration in whole milliseconds. Nothing is
/// claimed of the number, since nothing is known of the duration.
pub assume_specification[ Duration::as_millis ](d: &Duration) -> u128;

/// `SystemTime::duration_since` with the Unix epoch: the time since then, or
/// `None` where the clock stands before it. Nothing is claimed of the length.
#[verifier::external_body]
fn since_epoch(now: SystemTime) -> Option<Duration> {
    now.duration_since(SystemTime::UNIX_EPOCH).ok()
}

/// Milliseconds since the epoch, held inside 64 bits; zero before the epoch.
pub open spec fn epoch_reading(elapsed_ms: Option<u128>) -> u64 {
    match elapsed_ms {
        None => 0,
        Some(ms) => if ms > u64::MAX {
            u64::MAX
        } else {
            ms as u64
        },
    }
}

/// The reading of a wall clock that stands `elapsed_ms` past the epoch.
pub fn clamp_reading(elapsed_ms: Option<u128>) -> (ms: u64)
    ensures
        ms == epoch_reading(elapsed_ms),
{
    match elapsed_ms {
        None => 0,
        Some(ms) => if ms > u64::MAX as u128 {
            u64::MAX
        } else {
            ms as u64
        },
    }
}

pub trait Clock: Send + Sync {
    /// Milliseconds since the Unix epoch.
    fn now_ms(&self) -> u64;
}

#[derive(Clone, Copy, Debug, Default)]
pub struct WallClock;

impl Clock for WallClock {
    fn now_ms(&self) -> u64 {
        let elapsed: Option<u128> = match since_epoch(SystemTime::now()) {
            Some(elapsed) => Some(elapsed.as_millis()),
            None => None,
        };
        clamp_reading(elapsed)
    }
}

/// Shared handle: the replay feed advances it, the engine reads it.
///
/// The handle is a shared atomic, so what one reading returns depends on the
/// advances of every other holder; the contracts say nothing of it.
#[derive(Clone, Debug, Default)]
pub struct ReplayClock(Arc<AtomicU64>);

impl ReplayClock {
    pub fn new() -> Self {
        ReplayClock(Arc::new(AtomicU64::new(0)))
    }

    /// Move to a recorded receipt time. Never moves backwards: receipt times
    /// are wall-clock samples and do not define order (recorder sequence does).
    pub fn advance_to(&self, received_at_ms: u64) {
        let _ = self.0.fetch_max(received_at_ms, Ordering::Relaxed);
    }
}

impl Clock for ReplayClock {
    fn now_ms(&self) -> u64 {
        self.0.load(Ordering::Relaxed)
    }
}

} // verus!
