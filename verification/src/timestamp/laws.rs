//! Instants, as nanoseconds since the epoch.
use vstd::prelude::*;
use crate::timestamp::Timestamp;

verus! {

/// An instant in nanoseconds.
pub open spec fn nanoseconds(at: Timestamp) -> int {
    at.secs * 1_000_000_000 + at.nanos
}

/// An instant in milliseconds is the last whole millisecond at or before it, and
/// nothing where it lies before the epoch.
pub proof fn a_millisecond_is_a_million_nanoseconds(at: Timestamp)
    ensures
        at.ms() * 1_000_000 <= nanoseconds(at),
        nanoseconds(at) < (at.ms() + 1) * 1_000_000,
        nanoseconds(at) >= 0 && at.ms() <= u64::MAX ==> at.epoch_ms() == at.ms(),
        at.ms() < 0 ==> at.epoch_ms() == 0,
{
}

/// One instant is before another exactly where fewer nanoseconds have passed.
pub proof fn earlier_is_fewer_nanoseconds(a: Timestamp, b: Timestamp)
    requires
        a.nanos < 1_000_000_000,
        b.nanos < 1_000_000_000,
    ensures
        a.before(b) <==> nanoseconds(a) < nanoseconds(b),
{
}

} // verus!
