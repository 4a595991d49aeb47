//! What a connection does with what it hears.
use vstd::prelude::*;
use crate::feed::kalshi;
use crate::feed::kalshi::{Frame, Link};
use crate::feed::EventView;
use crate::json;
use crate::json::Json;
use crate::metrics::MetricsView;
use crate::record::ControlView;
use crate::tally;
use crate::types;
use crate::types::{Instrument, Venue};

verus! {

/// One where a ticker was subscribed to.
pub open spec fn known_flag(names: Seq<Instrument>, tickers: Seq<Seq<char>>) -> spec_fn(
    int,
) -> int {
    |i: int|
        if types::lookup(names, Venue::Kalshi, tickers[i]) is Some {
            1
        } else {
            0
        }
}

/// A renewed subscription is told of every ticker that was subscribed to, in
/// order, and of no other.
pub proof fn every_known_ticker_is_resubscribed(
    names: Seq<Instrument>,
    tickers: Seq<Seq<char>>,
    i: int,
)
    requires
        0 <= i < tickers.len(),
    ensures
        ({
            let events = kalshi::resubscriptions(names, tickers);
            let at = tally::total(i, known_flag(names, tickers));
            &&& events.len() == tally::total(
                tickers.len() as int,
                known_flag(names, tickers),
            )
            &&& types::lookup(names, Venue::Kalshi, tickers[i]) matches Some(contract) ==> 0 <= at
                < events.len() && events[at] == (EventView::Resubscribed { contract })
        }),
    decreases tickers.len(),
{
    let front = tickers.drop_last();
    let n = tickers.len() - 1;
    tally::lemma_same(i, known_flag(names, tickers), known_flag(names, front));
    tally::lemma_same(n, known_flag(names, tickers), known_flag(names, front));
    if n > 0 {
        every_known_ticker_is_resubscribed(
            names,
            front,
            if i < n {
                i
            } else {
                0
            },
        );
        if i < n {
            assert(front[i] == tickers[i]);
        }
    } else {
        assert(kalshi::resubscriptions(names, front).len() == 0);
        assert(tally::total(0, known_flag(names, tickers)) == 0);
    }
}

/// A frame that confirms the subscription to the books.
pub open spec fn confirms(frame: Json) -> bool {
    json::text_of(json::member_of(frame, "type"@)) == Some("subscribed"@) && (json::member_of(
        frame,
        "id"@,
    ) matches Some(id) && id == Json::Number(Some(1))) && (json::member_of(
        frame,
        "msg"@,
    ) matches Some(msg) && json::text_of(json::member_of(msg, "channel"@)) == Some(
        "orderbook_delta"@,
    ))
}

/// A link counts every frame, is confirmed by the first confirmation only, tells
/// of the subscription again only where it was lost before, and drops on an error
/// or a close.
pub proof fn a_link_is_confirmed_once(
    link: Link,
    metrics: MetricsView,
    names: Seq<Instrument>,
    tickers: Seq<Seq<char>>,
    frame: Frame,
    received_at_ms: u64,
)
    requires
        metrics.has_room(),
        metrics.messages_received < u64::MAX,
    ensures
        ({
            let out = link.hearing(metrics, names, tickers, frame, received_at_ms);
            let value = match frame {
                Frame::Text(text) => json::parsed_json(text@),
                _ => None,
            };
            let said = match frame {
                Frame::Text(text) => kalshi::heard(
                    MetricsView {
                        messages_received: (metrics.messages_received + 1) as u64,
                        ..metrics
                    },
                    names,
                    kalshi::frame_in(text@),
                    received_at_ms,
                ).1,
                _ => None,
            };
            let answered = !link.acknowledged && said is None && value is Some && confirms(
                value->0,
            );
            let again = answered && link.reconnect;
            let failed = value is Some && json::text_of(json::member_of(value->0, "type"@)) == Some(
                "error"@,
            );
            &&& out.metrics.messages_received == metrics.messages_received + 1
            &&& out.link.acknowledged == (link.acknowledged || answered)
            &&& out.link.attempt == (if answered {
                0
            } else {
                link.attempt
            })
            &&& out.link.reconnect == link.reconnect
            &&& out.dropped <==> failed || frame is Close
            &&& out.control == (if again {
                Some(ControlView::Resubscribed { tickers })
            } else {
                None
            })
            &&& again ==> out.events == kalshi::resubscriptions(names, tickers)
            &&& !again ==> match said {
                Some(event) => out.events.len() == 1 && out.events[0] == event,
                None => out.events.len() == 0,
            }
            &&& metrics.reconnections < u64::MAX ==> out.metrics.reconnections
                == metrics.reconnections + (if again {
                1int
            } else {
                0int
            })
        }),
{
    let out = link.hearing(metrics, names, tickers, frame, received_at_ms);
    let all = kalshi::resubscriptions(names, tickers);
    assert(all + Seq::<EventView>::empty() =~= all);
}

} // verus!
