//! What a replay plays, and what a recording holds.
use vstd::prelude::*;
use crate::feed::kalshi;
use crate::feed::replay;
use crate::feed::replay::{PlayedView, ReplayErrorView, ReplayView, SessionView};
use crate::feed::EventView;
use crate::metrics::MetricsView;
use crate::record;
use crate::record::{ControlView, RecordError, RecordView};
use crate::types;
use crate::types::{Instrument, Venue};

verus! {

/// A record that starts a session.
pub open spec fn starts_session(record: RecordView) -> bool {
    record::control_in(record) matches Ok(Some(control)) && control is SessionStarted
}

/// A recording is cut where a session starts: each record belongs to the session
/// open at its place, the first record opens one whatever it is, and sessions
/// count their records and remember when they began and what they were told.
pub proof fn a_session_starts_where_it_is_marked(sessions: Seq<SessionView>, record: RecordView)
    requires
        forall|i: int|
            0 <= i < sessions.len() ==> (#[trigger] sessions[i]).records < u64::MAX,
    ensures
        match replay::noted(sessions, record) {
            Err(error) => record::control_in(record) == Err::<Option<ControlView>, RecordError>(
                error,
            ),
            Ok(after) => {
                let opens = starts_session(record) || sessions.len() == 0;
                let last = after.last();
                &&& opens ==> after.len() == sessions.len() + 1 && after.drop_last() == sessions
                    && last.index == sessions.len() + 1 && last.records == 1
                    && last.first_received_at_ms == record.received_at_ms
                &&& !opens ==> after.len() == sessions.len() && after.drop_last()
                    == sessions.drop_last() && last.records == sessions.last().records + 1
                    && last.index == sessions.last().index && last.tickers
                    == sessions.last().tickers && last.environment == sessions.last().environment
                    && last.first_received_at_ms == sessions.last().first_received_at_ms
                &&& record::control_in(record) matches Ok(
                    Some(ControlView::SessionStarted { environment, tickers }),
                ) ==> last.environment == Some(environment) && last.tickers == Some(tickers)
            },
        },
{
    if let Ok(after) = replay::noted(sessions, record) {
        let opens = starts_session(record) || sessions.len() == 0;
        if opens {
            assert(after.drop_last() =~= sessions);
        } else {
            assert(after.drop_last() =~= sessions.drop_last());
        }
    }
}

/// A replay plays the session that it is asked for, or the only one.
pub proof fn a_replay_chooses_one_session(sessions: Seq<SessionView>, wanted: Option<usize>)
    ensures
        match replay::chosen(sessions, wanted) {
            Ok(session) => 1 <= session <= sessions.len() && (wanted matches Some(index)
                ==> session == index) && (wanted is None ==> sessions.len() == 1),
            Err(ReplayErrorView::NoRecords) => sessions.len() == 0,
            Err(ReplayErrorView::SessionOutOfRange { index, sessions: held }) => sessions.len()
                > 0 && wanted is Some && index == wanted->0 && held == sessions.len() && (index < 1
                || index > held),
            Err(ReplayErrorView::SeveralSessions { sessions: held, .. }) => wanted is None
                && sessions.len() > 1 && held == sessions.len(),
            Err(_) => false,
        },
{
}

/// A replay subscribes to what was recorded. What is given instead must be the
/// same set, and where nothing was recorded it has to be given.
pub proof fn a_replay_subscribes_to_what_was_recorded(
    given: Option<Seq<Seq<char>>>,
    recorded: Option<Seq<Seq<char>>>,
    session: int,
)
    ensures
        match replay::agreed(given, recorded, session) {
            Ok(tickers) => {
                &&& tickers.len() > 0
                &&& given matches Some(asked) ==> tickers == asked
                &&& given is None ==> recorded == Some(tickers)
                &&& given is Some && recorded is Some ==> forall|t: Seq<char>|
                    given->0.contains(t) <==> #[trigger] recorded->0.contains(t)
            },
            Err(ReplayErrorView::TickersDiffer { .. }) => given is Some && recorded is Some
                && exists|t: Seq<char>|
                given->0.contains(t) != #[trigger] recorded->0.contains(t),
            Err(ReplayErrorView::Unmarked { session: at }) => given is None && recorded is None
                && at == session,
            Err(ReplayErrorView::NoTickers) => given is Some || recorded is Some,
            Err(_) => false,
        },
{
    if let (Some(asked), Some(held)) = (given, recorded) {
        broadcast use vstd::seq_lib::group_seq_properties;

        if asked.to_set() == held.to_set() {
            assert forall|t: Seq<char>| asked.contains(t) <==> #[trigger] held.contains(t) by {
                assert(asked.to_set().contains(t) == asked.contains(t));
                assert(held.to_set().contains(t) == held.contains(t));
            }
        } else {
            if forall|t: Seq<char>| asked.contains(t) == #[trigger] held.contains(t) {
                assert forall|t: Seq<char>| asked.to_set().contains(t) == #[trigger] held.to_set(
                ).contains(t) by {
                    assert(asked.contains(t) == held.contains(t));
                }
                assert(asked.to_set() =~= held.to_set());
            }
        }
    }
}

/// A record is skipped before the chosen session, ends the replay behind it, and
/// is played inside it: a frame as it was heard, a lost connection as that, a
/// renewed subscription as one event for each ticker, and anything silent as
/// nothing.
pub proof fn a_record_is_played_inside_its_session(
    feed: ReplayView,
    record: RecordView,
    control: Option<ControlView>,
)
    requires
        feed.has_room(),
        record::control_in(record) == Ok::<Option<ControlView>, RecordError>(control),
    ensures
        ({
            let at = feed.current + (if feed.current == 0 || starts_session(record) {
                1int
            } else {
                0int
            });
            let (after, played) = feed.played(record);
            let inside = at == feed.selected;
            let heard = kalshi::heard(
                MetricsView {
                    messages_received: (feed.metrics.messages_received + 1) as u64,
                    ..feed.metrics
                },
                feed.names,
                kalshi::frame_in(record.raw),
                record.received_at_ms,
            );
            &&& after.current == at
            &&& at < feed.selected ==> (played matches Ok(PlayedView::Skipped)) && after.metrics
                == feed.metrics
            &&& at > feed.selected ==> (played matches Ok(PlayedView::Finished)) && after.metrics
                == feed.metrics
            &&& inside && control is None && record.kind == "text"@ ==> after.metrics == heard.0
                && (played matches Ok(PlayedView::Events(events)) && match heard.1 {
                Some(event) => events.len() == 1 && events[0] == event,
                None => events.len() == 0,
            })
            &&& inside && control is None && record.kind != "text"@ ==> after.metrics
                == (MetricsView {
                messages_received: (feed.metrics.messages_received + 1) as u64,
                ..feed.metrics
            })
            &&& inside && control is Some && control->0 is Disconnected ==> (
            played matches Ok(PlayedView::Events(events)) && events.len() == 1 && events[0]
                == EventView::Disconnected { venue: feed.venue })
            &&& inside && control is Some && (control->0 is SessionStarted || control->0
                is Reconnected) ==> (played matches Ok(PlayedView::Events(events)) && events.len()
                == 0)
        }),
{
}

/// A renewed subscription is one event for each of its tickers, in order, and is
/// refused where a ticker was never subscribed to.
pub proof fn a_resubscription_names_every_ticker(
    names: Seq<Instrument>,
    venue: Venue,
    tickers: Seq<Seq<char>>,
)
    ensures
        match replay::unknown_ticker(names, venue, tickers) {
            Some(ticker) => tickers.contains(ticker) && types::lookup(names, venue, ticker) is None,
            None => forall|i: int|
                0 <= i < tickers.len() ==> types::lookup(names, venue, #[trigger] tickers[i])
                    is Some,
        },
        ({
            let events = replay::resubscriptions(names, venue, tickers);
            &&& events.len() == tickers.len()
            &&& forall|i: int|
                0 <= i < tickers.len() ==> (#[trigger] events[i] matches EventView::Resubscribed {
                    contract,
                } && (types::lookup(names, venue, tickers[i]) is Some ==> types::lookup(
                    names,
                    venue,
                    tickers[i],
                ) == Some(contract)))
        }),
    decreases tickers.len(),
{
    if tickers.len() > 0 {
        let front = tickers.drop_last();
        a_resubscription_names_every_ticker(names, venue, front);
        if let Some(ticker) = replay::unknown_ticker(names, venue, front) {
            let k = choose|k: int| 0 <= k < front.len() && front[k] == ticker;
            assert(tickers[k] == ticker);
        } else {
            assert(tickers[tickers.len() - 1] == tickers.last());
            assert forall|i: int| 0 <= i < tickers.len() && types::lookup(
                names,
                venue,
                tickers.last(),
            ) is Some implies types::lookup(names, venue, #[trigger] tickers[i]) is Some by {
                if i < front.len() {
                    assert(tickers[i] == front[i]);
                }
            }
        }
    }
}

} // verus!
