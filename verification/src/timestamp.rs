//! Instants as the venue publishes them: RFC 3339 text, and the seconds and
//! nanoseconds it stands for.
use vstd::prelude::*;

pub mod laws;

verus! {

/// An instant in UTC: whole seconds since the epoch, and nanoseconds past them.
#[derive(Clone, Copy, Debug, PartialEq, Eq, Structural)]
pub struct Timestamp {
    pub secs: i64,
    pub nanos: u32,
}

/// What `chrono::DateTime::parse_from_rfc3339` reads out of a text: the
/// instant's seconds and nanoseconds, or nothing.
pub uninterp spec fn rfc3339_instant(text: Seq<char>) -> Option<(i64, u32)>;

/// The instant an RFC 3339 text names.
pub open spec fn instant(text: Seq<char>) -> Option<Timestamp> {
    match rfc3339_instant(text) {
        Some(parts) => Some(Timestamp { secs: parts.0, nanos: parts.1 }),
        None => None,
    }
}

/// Calls `chrono::DateTime::parse_from_rfc3339` and hands out the parsed
/// instant's `timestamp()` and `timestamp_subsec_nanos()`. The claim is only
/// that the result is a function of the text, under the name
/// [`rfc3339_instant`].
#[verifier::external_body]
fn read_rfc3339(text: &str) -> (parts: Option<(i64, u32)>)
    ensures
        parts == rfc3339_instant(text@),
{
    let parsed = chrono::DateTime::parse_from_rfc3339(text).ok()?;
    Some((parsed.timestamp(), parsed.timestamp_subsec_nanos()))
}

/// What `chrono::DateTime::to_rfc3339` writes for the instant that
/// `chrono::DateTime::from_timestamp` makes of seconds and nanoseconds, or
/// nothing where it makes none.
pub uninterp spec fn rfc3339_text(secs: i64, nanos: u32) -> Option<Seq<char>>;

/// Calls `chrono::DateTime::from_timestamp`, and `to_rfc3339` on the instant in
/// UTC. The claim is only that the result is a function of the two numbers,
/// under the name [`rfc3339_text`].
#[verifier::external_body]
fn write_rfc3339(secs: i64, nanos: u32) -> (text: Option<String>)
    ensures
        match text {
            Some(text) => rfc3339_text(secs, nanos) == Some(text@),
            None => rfc3339_text(secs, nanos) is None,
        },
{
    Some(chrono::DateTime::from_timestamp(secs, nanos)?.to_rfc3339())
}

impl Timestamp {
    /// The instant as RFC 3339 text; nothing of one that no calendar names.
    pub open spec fn shown(self) -> Seq<char> {
        match rfc3339_text(self.secs, self.nanos) {
            Some(text) => text,
            None => Seq::empty(),
        }
    }

    /// The instant as RFC 3339 text.
    pub fn to_rfc3339(self) -> (text: String)
        ensures
            text@ == self.shown(),
    {
        match write_rfc3339(self.secs, self.nanos) {
            Some(text) => text,
            None => String::new(),
        }
    }

    /// Milliseconds since the epoch, negative before it.
    pub open spec fn ms(self) -> int {
        self.secs * 1000 + self.nanos as int / 1_000_000
    }

    /// Milliseconds since the epoch; an instant before it counts as the epoch.
    pub open spec fn epoch_ms(self) -> u64 {
        if 0 <= self.ms() <= u64::MAX {
            self.ms() as u64
        } else {
            0
        }
    }

    pub open spec fn before(self, other: Timestamp) -> bool {
        self.secs < other.secs || (self.secs == other.secs && self.nanos < other.nanos)
    }

    /// The instant that `text` names, or `None` where it is not RFC 3339.
    pub fn parse(text: &str) -> (parsed: Option<Timestamp>)
        ensures
            parsed == instant(text@),
    {
        match read_rfc3339(text) {
            Some((secs, nanos)) => Some(Timestamp { secs, nanos }),
            None => None,
        }
    }

    /// Milliseconds since the epoch.
    ///
    /// A negative count would mean an instant before the Unix epoch. It clamps
    /// rather than wraps; the freshness gate and the horizon floor both handle
    /// a past resolution already.
    pub fn epoch_millis(self) -> (ms: u64)
        ensures
            ms == self.epoch_ms(),
    {
        let ms: i128 = self.secs as i128 * 1000 + (self.nanos / 1_000_000) as i128;
        if ms < 0 || ms > u64::MAX as i128 {
            0
        } else {
            ms as u64
        }
    }

    /// Milliseconds since the epoch, or `None` for an instant before it.
    pub fn unsigned_millis(self) -> (ms: Option<u64>)
        ensures
            ms == (if 0 <= self.ms() <= u64::MAX {
                Some(self.ms() as u64)
            } else {
                None
            }),
    {
        let ms: i128 = self.secs as i128 * 1000 + (self.nanos / 1_000_000) as i128;
        if ms < 0 || ms > u64::MAX as i128 {
            None
        } else {
            Some(ms as u64)
        }
    }

    /// Whether this instant is strictly before `other`.
    pub fn is_before(self, other: Timestamp) -> (earlier: bool)
        ensures
            earlier == self.before(other),
    {
        self.secs < other.secs || (self.secs == other.secs && self.nanos < other.nanos)
    }
}

} // verus!
