//! Public GET endpoints: when a request is tried again, and how a list is
//! walked page by page. Both lists follow cursor pagination.
use vstd::prelude::*;
use crate::text;

verus! {

/// One event as the venue lists it.
#[derive(Clone, Debug, PartialEq)]
pub struct Event {
    pub event_ticker: String,
    pub series_ticker: String,
    pub title: String,
    /// The venue's own word on whether exactly one market under this event
    /// resolves yes. This is the authoritative signal for an exhaustive set, and
    /// it is why inference does not have to guess from titles or tickers.
    pub mutually_exclusive: bool,
}

/// One market as the venue lists it.
#[derive(Clone, Debug, PartialEq)]
pub struct Market {
    pub ticker: String,
    pub event_ticker: String,
    pub title: String,
    /// "greater", "less", "between", "custom", or absent. A ladder is a run of
    /// "greater" rungs under one event.
    pub strike_type: Option<String>,
    /// Threshold for a "greater" rung. Only used for ordering, never for money,
    /// so it is held as the place it has among thresholds: the larger threshold
    /// has the larger number, and the opposite threshold the opposite number.
    pub floor_strike: Option<i64>,
    pub cap_strike: Option<i64>,
    pub status: String,
    pub close_time: Option<String>,
    pub expiration_time: Option<String>,
}

/// A base URL without the slashes it ends in.
pub open spec fn without_slashes(url: Seq<char>) -> Seq<char>
    decreases url.len(),
{
    if url.len() > 0 && url.last() == '/' {
        without_slashes(url.drop_last())
    } else {
        url
    }
}

/// A base URL without the slashes it ends in.
pub fn trim_slashes(url: &str) -> (out: String)
    ensures
        out@ == without_slashes(url@),
{
    let all: Vec<char> = text::chars(url);
    let mut end: usize = all.len();
    assert(all@.subrange(0, end as int) =~= url@);
    while end > 0 && all[end - 1] == '/'
        invariant
            end <= all@.len(),
            without_slashes(url@) == without_slashes(all@.subrange(0, end as int)),
        decreases end,
    {
        assert(all@.subrange(0, end as int).drop_last() =~= all@.subrange(0, end - 1));
        end = end - 1;
    }
    text::collect(vstd::slice::slice_subrange(all.as_slice(), 0, end))
}

/// The seconds since the epoch that `chrono::DateTime::parse_from_rfc2822`
/// reads out of a text, or nothing.
pub uninterp spec fn rfc2822_seconds(text: Seq<char>) -> Option<i64>;

/// `chrono::DateTime::parse_from_rfc2822` and the instant's `timestamp()`: a
/// function of the text alone.
#[verifier::external_body]
fn read_rfc2822(text: &str) -> (seconds: Option<i64>)
    ensures
        seconds == rfc2822_seconds(text@),
{
    Some(chrono::DateTime::parse_from_rfc2822(text).ok()?.timestamp())
}

/// How long a server asks to be left alone, in seconds: a count, or the time
/// until a date.
pub open spec fn asked_seconds(header: Seq<char>, now_ms: u64) -> Option<int> {
    match text::unsigned(header, u64::MAX as int) {
        Some(seconds) => Some(seconds),
        None => match rfc2822_seconds(header) {
            Some(at) => {
                let left = at - now_ms / 1000;
                Some(
                    if left > 0 {
                        left
                    } else {
                        0
                    },
                )
            },
            None => None,
        },
    }
}

/// What is done with an answer.
#[derive(Clone, Copy, Debug, PartialEq, Eq, Structural)]
pub enum Retry {
    /// Take the answer as it is.
    Take,
    /// Ask again after this many milliseconds.
    After(u64),
    /// The server asks for a longer pause than discovery waits.
    TooLong,
}

/// A request is tried six times at most.
pub const LAST_ATTEMPT: u32 = 5;

/// Whether an answer says that asking again may help.
pub open spec fn worth_retrying(attempt: u32, code: u16) -> bool {
    attempt < LAST_ATTEMPT && (code == 429 || 500 <= code <= 599)
}

/// What is done with an answer: its code, what it asks under `Retry-After` if
/// that is text, the clock's reading and the jitter that was drawn.
pub open spec fn retried(
    attempt: u32,
    code: u16,
    header: Option<Seq<char>>,
    now_ms: u64,
    jitter: u64,
) -> Retry {
    if !worth_retrying(attempt, code) {
        Retry::Take
    } else {
        let asked = match header {
            Some(header) => asked_seconds(header, now_ms),
            None => None,
        };
        match asked {
            Some(seconds) => if seconds <= 30 {
                Retry::After((seconds * 1000) as u64)
            } else {
                Retry::TooLong
            },
            None => Retry::After(
                (1000 * vstd::arithmetic::power2::pow2(attempt as nat) + jitter % 250) as u64,
            ),
        }
    }
}

/// Decide what is done with an answer.
///
/// Never earlier than the server asks. A long pause is reported to the caller
/// instead of tying discovery up indefinitely.
pub fn retry(
    attempt: u32,
    code: u16,
    header: Option<&str>,
    now_ms: u64,
    jitter: u64,
) -> (decision: Retry)
    ensures
        decision == retried(
            attempt,
            code,
            (match header {
                Some(header) => Some(header@),
                None => None,
            }),
            now_ms,
            jitter,
        ),
{
    if !(attempt < LAST_ATTEMPT && (code == 429 || (500 <= code && code <= 599))) {
        return Retry::Take;
    }
    let asked: Option<u64> = match header {
        Some(header) => match text::parse_u64(header) {
            Some(seconds) => Some(seconds),
            None => match read_rfc2822(header) {
                Some(at) => {
                    let left: i128 = at as i128 - (now_ms / 1000) as i128;
                    if left > 0 {
                        Some(left as u64)
                    } else {
                        Some(0)
                    }
                },
                None => None,
            },
        },
        None => None,
    };
    match asked {
        Some(seconds) => if seconds <= 30 {
            Retry::After(seconds * 1000)
        } else {
            Retry::TooLong
        },
        None => {
            let base: u64 = match attempt {
                0 => 1_000,
                1 => 2_000,
                2 => 4_000,
                3 => 8_000,
                _ => 16_000,
            };
            proof {
                vstd::arithmetic::power2::lemma2_to64();
            }
            Retry::After(base + jitter % 250)
        },
    }
}

/// Why a list could not be walked to its end.
#[derive(Clone, Copy, Debug, PartialEq, Eq, Structural)]
pub enum PageError {
    /// The venue handed out a cursor it had handed out before.
    RepeatedCursor,
    /// A walk of no pages at all.
    NoPages,
    /// The list goes on past the pages allowed.
    LimitReached { pages: usize },
}

/// The message of a [`PageError`] on a list.
pub open spec fn page_error_message(error: PageError, list: Seq<char>) -> Seq<char> {
    match error {
        PageError::RepeatedCursor => list + " pagination repeated cursor"@,
        PageError::NoPages => list + " pagination limit must be positive"@,
        PageError::LimitReached { pages } => list + " discovery reached its "@ + text::decimal(
            pages as nat,
        ) + "-page limit before the venue was exhausted"@,
    }
}

impl PageError {
    pub fn message(&self, list: &str) -> (out: String)
        ensures
            out@ == page_error_message(*self, list@),
    {
        let mut out: String = list.to_owned();
        match self {
            PageError::RepeatedCursor => {
                out.append(" pagination repeated cursor");
            },
            PageError::NoPages => {
                out.append(" pagination limit must be positive");
            },
            PageError::LimitReached { pages } => {
                out.append(" discovery reached its ");
                text::push_u64(&mut out, *pages as u64);
                out.append("-page limit before the venue was exhausted");
            },
        }
        out
    }
}

/// A walk through a list, page by page.
#[derive(Clone, Debug, PartialEq)]
pub struct Pager {
    cursor: String,
    seen: Vec<String>,
    taken: usize,
    limit: Option<usize>,
}

/// What a [`Pager`] holds.
#[verifier::ext_equal]
pub struct PagerView {
    pub cursor: Seq<char>,
    pub seen: Seq<Seq<char>>,
    pub taken: usize,
    pub limit: Option<usize>,
}

impl View for Pager {
    type V = PagerView;

    closed spec fn view(&self) -> PagerView {
        PagerView {
            cursor: self.cursor@,
            seen: text::views(self.seen@),
            taken: self.taken,
            limit: self.limit,
        }
    }
}

impl PagerView {
    /// Whether the walk goes on after a page that ended in a cursor.
    pub open spec fn turned(self, cursor: Seq<char>) -> Result<bool, PageError> {
        if cursor.len() == 0 {
            Ok(false)
        } else if self.seen.contains(cursor) {
            Err(PageError::RepeatedCursor)
        } else if self.limit matches Some(limit) && self.taken + 1 >= limit {
            Err(PageError::LimitReached { pages: self.limit->0 })
        } else {
            Ok(true)
        }
    }
}

impl Pager {
    /// Start a walk of at most `limit` pages, or of as many as there are.
    pub fn new(limit: Option<usize>) -> (result: Result<Self, PageError>)
        ensures
            match result {
                Ok(pager) => limit != Some(0usize) && pager@ == (PagerView {
                    cursor: Seq::empty(),
                    seen: Seq::empty(),
                    taken: 0,
                    limit,
                }),
                Err(error) => limit == Some(0usize) && error == PageError::NoPages,
            },
    {
        if let Some(pages) = limit {
            if pages == 0 {
                return Err(PageError::NoPages);
            }
        }
        let pager = Pager { cursor: String::new(), seen: Vec::new(), taken: 0, limit };
        assert(pager@.cursor =~= Seq::<char>::empty());
        assert(pager@.seen =~= Seq::<Seq<char>>::empty());
        Ok(pager)
    }

    /// The cursor of the page to ask for next.
    pub fn cursor(&self) -> (cursor: &str)
        ensures
            cursor@ == self@.cursor,
    {
        self.cursor.as_str()
    }

    /// A page arrived and ended in a cursor: whether there is another to ask
    /// for.
    pub fn turn(&mut self, cursor: Option<String>) -> (result: Result<bool, PageError>)
        requires
            old(self)@.taken < usize::MAX,
        ensures
            result == old(self)@.turned(
                (match cursor {
                    Some(cursor) => cursor@,
                    None => Seq::empty(),
                }),
            ),
            result == Ok::<bool, PageError>(true) ==> cursor is Some && final(self)@ == (PagerView {
                cursor: cursor->0@,
                seen: old(self)@.seen.push(cursor->0@),
                taken: (old(self)@.taken + 1) as usize,
                ..old(self)@
            }),
    {
        let cursor: String = match cursor {
            Some(cursor) => cursor,
            None => return Ok(false),
        };
        let letters: Vec<char> = text::chars(cursor.as_str());
        if letters.len() == 0 {
            return Ok(false);
        }
        if text::holds(self.seen.as_slice(), cursor.as_str()) {
            return Err(PageError::RepeatedCursor);
        }
        if let Some(limit) = self.limit {
            if self.taken + 1 >= limit {
                return Err(PageError::LimitReached { pages: limit });
            }
        }
        let ghost seen = self@.seen;
        self.taken = self.taken + 1;
        self.seen.push(cursor.as_str().to_owned());
        assert(self@.seen =~= seen.push(cursor@));
        self.cursor = cursor;
        Ok(true)
    }
}

// ---------------------------------------------------------------------------
// Laws
// ---------------------------------------------------------------------------

/// A walk never asks for the same page twice: as long as it goes on, every
/// cursor it has followed is a new one.
pub proof fn no_page_is_asked_for_twice(pager: PagerView, cursor: Seq<char>)
    requires
        pager.seen.no_duplicates(),
        pager.turned(cursor) == Ok::<bool, PageError>(true),
    ensures
        pager.seen.push(cursor).no_duplicates(),
{
    let after = pager.seen.push(cursor);
    assert forall|i: int, j: int| 0 <= i < after.len() && 0 <= j < after.len() && i != j implies
        after[i] != after[j] by {
        if i == pager.seen.len() {
            assert(pager.seen.contains(pager.seen[j]));
        } else if j == pager.seen.len() {
            assert(pager.seen.contains(pager.seen[i]));
        }
    }
}

/// No request is tried more than six times, and none is tried again before the
/// server said it may be.
pub proof fn a_retry_waits_as_long_as_asked(
    attempt: u32,
    code: u16,
    header: Seq<char>,
    now_ms: u64,
    jitter: u64,
)
    ensures
        attempt >= LAST_ATTEMPT ==> retried(attempt, code, Some(header), now_ms, jitter)
            == Retry::Take,
        (retried(attempt, code, Some(header), now_ms, jitter) matches Retry::After(ms)
            && asked_seconds(header, now_ms) is Some) ==> retried(
            attempt,
            code,
            Some(header),
            now_ms,
            jitter,
        )->After_0 == asked_seconds(header, now_ms)->0 * 1000,
{
    if let Some(seconds) = text::unsigned(header, u64::MAX as int) {
        let digits = if header.len() > 0 && header[0] == '+' {
            header.subrange(1, header.len() as int)
        } else {
            header
        };
        text::lemma_number_bounds(digits);
    }
}

} // verus!
