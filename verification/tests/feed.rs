use base64::engine::general_purpose::STANDARD;
use base64::Engine;
use rsa::pkcs1::EncodeRsaPrivateKey;
use rsa::pkcs8::{EncodePrivateKey, LineEnding};
use rsa::pss::{Signature, VerifyingKey};
use rsa::rand_core::OsRng;
use rsa::signature::Verifier;
use rsa::RsaPrivateKey;
use sha2::Sha256;
use sum100::feed::kalshi::{
    backoff_ms, is_error, read_control, signed_header, signing_message, subscription, usable_tickers,
    CredentialError, Credentials, Environment, Frame, Link, Parser,
};
use sum100::feed::merged::{total_metrics, Roster};
use sum100::feed::polymarket::{Parsed, Parser as TokenParser};
use sum100::feed::rest::{retry, trim_slashes, PageError, Pager, Retry};
use sum100::feed::FeedEvent;
use sum100::metrics::Metrics;
use sum100::record::Control;
use sum100::types::{ContractId, Level, Side, TokenSide, Venue};

fn tickers() -> Vec<String> {
    vec!["KXA".into(), "KXB".into()]
}

// ---------------------------------------------------------------------- Kalshi

#[test]
fn a_snapshot_is_read_into_both_sides() {
    let mut parser = Parser::new(&tickers()).unwrap();
    let event = parser.parse(
        r#"{"type":"orderbook_snapshot","sid":1,"seq":7,"msg":{"market_ticker":"KXB","yes_dollars_fp":[["0.0800","300.00"],["0.1000","2.50"]],"no_dollars_fp":[["0.9000","1.00"]]}}"#,
        1_000,
    );
    assert_eq!(
        event,
        Some(FeedEvent::Snapshot {
            contract: ContractId(1),
            yes: vec![Level { price: 8, size: 300 }, Level { price: 10, size: 2 }],
            no: vec![Level { price: 90, size: 1 }],
            seq: 7,
            venue_ts_ms: None,
        })
    );
    assert_eq!(parser.metrics.parse_attempts, 1);
    assert_eq!(parser.metrics.discarded_size_hundredths, 50);
    assert_eq!(parser.metrics.snapshot_sides_absent, 0);
}

#[test]
fn a_side_left_out_of_a_snapshot_is_empty_and_counted() {
    let mut parser = Parser::new(&tickers()).unwrap();
    let event = parser.parse(
        r#"{"type":"orderbook_snapshot","seq":7,"msg":{"market_ticker":"KXA","yes_dollars_fp":[["0.0800","3.00"]]}}"#,
        1_000,
    );
    assert!(matches!(event, Some(FeedEvent::Snapshot { no, .. }) if no.is_empty()));
    assert_eq!(parser.metrics.snapshot_sides_absent, 1);
}

#[test]
fn a_delta_is_read_and_timed() {
    let mut parser = Parser::new(&tickers()).unwrap();
    let event = parser.parse(
        r#"{"type":"orderbook_delta","seq":8,"msg":{"market_ticker":"KXA","price_dollars":"0.960","delta_fp":"-54.00","side":"no","ts_ms":900}}"#,
        1_000,
    );
    assert_eq!(
        event,
        Some(FeedEvent::Delta {
            contract: ContractId(0),
            side: Side::No,
            price: 96,
            size_delta: -54,
            seq: 8,
            venue_ts_ms: 900,
        })
    );
    assert_eq!(parser.metrics.latency_samples(), 1);
    // The venue's other way of saying when: an RFC 3339 text.
    let dated = parser.parse(
        r#"{"type":"orderbook_delta","seq":9,"msg":{"market_ticker":"KXA","price_dollars":"0.96","delta_fp":"1","side":"yes","ts":"1970-01-01T00:00:00.500Z"}}"#,
        1_000,
    );
    assert!(matches!(
        dated,
        Some(FeedEvent::Delta {
            venue_ts_ms: 500,
            ..
        })
    ));
}

#[test]
fn what_cannot_be_read_is_counted_by_its_cause() {
    let mut parser = Parser::new(&tickers()).unwrap();
    assert_eq!(parser.parse("not json", 1), None);
    assert_eq!(parser.metrics.parse_errors, 1);
    // A ticker nobody subscribed to.
    assert_eq!(
        parser.parse(
            r#"{"type":"orderbook_snapshot","seq":7,"msg":{"market_ticker":"KXZ"}}"#,
            1
        ),
        None
    );
    assert_eq!(parser.metrics.parse_errors, 2);
    // A tick finer than a cent is not an error in the frame.
    assert_eq!(
        parser.parse(
            r#"{"type":"orderbook_delta","seq":8,"msg":{"market_ticker":"KXA","price_dollars":"0.965","delta_fp":"1","side":"no","ts_ms":900}}"#,
            1
        ),
        None
    );
    assert_eq!(parser.metrics.sub_cent_prices, 1);
    assert_eq!(parser.metrics.parse_errors, 2);
    assert_eq!(parser.parse(r#"{"type":"ticker","msg":{}}"#, 1), None);
    assert_eq!(parser.metrics.unknown_messages, 1);
    assert_eq!(parser.parse(r#"{"type":"subscribed","msg":{}}"#, 1), None);
    assert_eq!(parser.metrics.parse_attempts, 5);
}

#[test]
fn a_subscription_names_its_markets_and_channels() {
    let text = subscription(&tickers(), &["orderbook_delta".to_string()]);
    let value: serde_json::Value = serde_json::from_str(&text).unwrap();
    assert_eq!(value["id"], 1);
    assert_eq!(value["cmd"], "subscribe");
    assert_eq!(value["params"]["channels"][0], "orderbook_delta");
    assert_eq!(value["params"]["market_tickers"][1], "KXB");
    assert!(usable_tickers(&tickers()));
    assert!(!usable_tickers(&[]));
}

#[test]
fn the_two_environments_never_share_an_address() {
    assert_ne!(
        Environment::Demo.ws_url(),
        Environment::Production.ws_url()
    );
    assert_ne!(
        Environment::Demo.rest_url(),
        Environment::Production.rest_url()
    );
    assert_eq!(Environment::default().name(), "demo");
}

#[test]
fn a_key_that_is_none_is_refused_at_startup() {
    assert_eq!(signing_message(12, "GET", "/p"), "12GET/p");
    assert!(matches!(
        Credentials::new(String::new(), "x"),
        Err(CredentialError::EmptyKeyId)
    ));
    assert!(matches!(
        Credentials::new("id".into(), "not a key"),
        Err(CredentialError::UnreadableKey)
    ));
}

#[test]
fn a_signature_is_carried_in_base64() {
    assert_eq!(signed_header(Some(vec![0xfb, 0xff, 1])).as_deref(), Some("+/8B"));
    assert_eq!(signed_header(Some(Vec::new())).as_deref(), Some(""));
    assert_eq!(signed_header(None), None);
}

#[test]
fn a_signature_covers_the_request_it_was_made_for() {
    let key = RsaPrivateKey::new(&mut OsRng, 1024).unwrap();
    let verifying = VerifyingKey::<Sha256>::new(key.to_public_key());
    for pem in [
        key.to_pkcs1_pem(LineEnding::LF).unwrap().to_string(),
        key.to_pkcs8_pem(LineEnding::LF).unwrap().to_string(),
    ] {
        let credentials = Credentials::new("id".into(), &pem).unwrap();
        assert_eq!(credentials.key_id(), "id");
        let text = credentials.sign(12, "GET", "/p?q=1").unwrap();
        let bytes = STANDARD.decode(text).unwrap();
        let signature = Signature::try_from(bytes.as_slice()).unwrap();
        // The query is not part of what is signed.
        assert!(verifying.verify(b"12GET/p", &signature).is_ok());
        assert!(verifying.verify(b"13GET/p", &signature).is_err());
        // The salt is drawn anew each time.
        assert_ne!(
            credentials.sign(12, "GET", "/p").unwrap(),
            credentials.sign(12, "GET", "/p").unwrap()
        );
    }
}

#[test]
fn a_heard_frame_is_acted_on_in_order() {
    let tickers = tickers();
    let mut parser = Parser::new(&tickers).unwrap();
    let mut link = Link::new();
    let text = |raw: &str| Frame::Text(raw.into());
    let ack = text(r#"{"type":"subscribed","id":1,"msg":{"channel":"orderbook_delta"}}"#);
    link.connected();
    let heard = link.hear(&mut parser, &tickers, &ack, 5);
    assert!(heard.step.events.is_empty() && heard.step.control.is_none() && !heard.dropped);
    assert!(link.acknowledged);
    let heard = link.hear(&mut parser, &tickers, &text(r#"{"type":"error"}"#), 6);
    assert!(heard.dropped);
    link.dropped("venue error");
    link.connected();
    // The second socket restores every contract, before anything else is told.
    let heard = link.hear(&mut parser, &tickers, &ack, 7);
    assert_eq!(
        heard.step.events,
        vec![
            FeedEvent::Resubscribed { contract: ContractId(0) },
            FeedEvent::Resubscribed { contract: ContractId(1) },
        ]
    );
    assert_eq!(
        heard.step.control,
        Some(Control::Resubscribed { tickers: tickers.clone() })
    );
    let delta = text(
        r#"{"type":"orderbook_delta","seq":8,"msg":{"market_ticker":"KXA","price_dollars":"0.4000","delta_fp":"3.00","side":"yes","ts_ms":7}}"#,
    );
    let heard = link.hear(&mut parser, &tickers, &delta, 8);
    assert_eq!(heard.step.events.len(), 1);
    assert!(!link.hear(&mut parser, &tickers, &Frame::Ping(vec![1]), 9).dropped);
    assert!(link.hear(&mut parser, &tickers, &Frame::Close(None), 9).dropped);
    assert_eq!(parser.metrics.messages_received, 6);
    assert_eq!(parser.metrics.reconnections, 1);
}

#[test]
fn a_dropped_link_is_recorded_once_and_waits_longer_each_time() {
    let mut link = Link::new();
    assert!(backoff_ms(0, 0) <= backoff_ms(1, 0));
    assert!(backoff_ms(1, 0) <= backoff_ms(2, 0));
    link.connected();
    let contracts = Parser::new(&tickers()).unwrap().contracts;
    assert!(!link.acknowledges(read_control(r#"{"type":"subscribed"}"#).as_ref()));
    let frame = read_control(r#"{"type":"subscribed","id":1,"msg":{"channel":"orderbook_delta"}}"#);
    assert!(link.acknowledges(frame.as_ref()));
    // The first socket restores nothing, so nothing is reported restored.
    assert!(link.acknowledge(&tickers(), &contracts).events.is_empty());
    let step = link.dropped("closed");
    assert!(matches!(step.control, Some(Control::Disconnected { .. })));
    assert_eq!(
        step.events,
        vec![FeedEvent::Disconnected {
            venue: Venue::Kalshi
        }]
    );
    link.connected();
    let step = link.acknowledge(&tickers(), &contracts);
    assert_eq!(step.events.len(), 2);
    assert!(matches!(step.control, Some(Control::Resubscribed { .. })));
    assert!(is_error(read_control(r#"{"type":"error"}"#).as_ref()));
    assert!(!is_error(None));
    assert_eq!(
        Frame::Text("x".into()).recorded(),
        ("text", "x".to_string())
    );
}

// ------------------------------------------------------------------ Polymarket

fn tokens() -> Vec<String> {
    vec!["111".into()]
}

#[test]
fn a_token_book_is_mirrored_into_no_bids() {
    let mut parser = TokenParser::new(&tokens()).unwrap();
    let parsed = parser
        .parse(
            r#"[{"asset_id":"111","timestamp":"900","hash":"h","bids":[{"price":"0.44","size":"7"}],"asks":[{"price":"0.46","size":"5"}]},{"asset_id":"222","timestamp":"900"}]"#,
            1_000,
        )
        .unwrap();
    let events = parsed.into_events(|_| 3);
    assert_eq!(
        events,
        vec![FeedEvent::Snapshot {
            contract: ContractId(0),
            yes: vec![Level { price: 44, size: 7 }],
            no: vec![Level { price: 54, size: 5 }],
            seq: 3,
            venue_ts_ms: Some(900),
        }]
    );
}

#[test]
fn a_price_change_restates_its_level() {
    let mut parser = TokenParser::new(&tokens()).unwrap();
    let parsed = parser
        .parse(
            r#"{"event_type":"price_change","timestamp":"900","price_changes":[{"asset_id":"111","price":"0.44","size":"12","side":"SELL"}]}"#,
            1_000,
        )
        .unwrap();
    assert!(matches!(parsed, Parsed::Levels { venue_ts_ms: 900, .. }));
    assert_eq!(
        parsed.into_events(|_| 0),
        vec![FeedEvent::LevelSet {
            contract: ContractId(0),
            side: TokenSide::Ask,
            price: 44,
            size: 12,
            venue_ts_ms: 900,
        }]
    );
}

#[test]
fn a_heartbeat_is_no_error() {
    let mut parser = TokenParser::new(&tokens()).unwrap();
    assert!(parser.parse("PONG", 1).is_none());
    assert_eq!(parser.metrics.parse_errors, 0);
    assert!(parser.parse("{", 1).is_none());
    assert_eq!(parser.metrics.parse_errors, 1);
}

// ------------------------------------------------------------------ several feeds

#[test]
fn a_feed_that_ended_is_not_asked_again() {
    let mut roster = Roster::new(3);
    assert_eq!(roster.live(), [0, 1, 2]);
    roster.finish(1);
    assert_eq!(roster.live(), [0, 2]);
    assert!(!roster.is_finished());
    roster.finish(0);
    roster.finish(2);
    assert!(roster.is_finished());
}

#[test]
fn metrics_of_several_feeds_are_summed() {
    let one = Metrics {
        messages_received: 3,
        sub_cent_prices: 1,
        ..Metrics::default()
    };
    let two = Metrics {
        messages_received: 4,
        ..Metrics::default()
    };
    assert_eq!(total_metrics(&[None, None]), None);
    let total = total_metrics(&[Some(one), None, Some(two)]).unwrap();
    assert_eq!(total.messages_received, 7);
    assert_eq!(total.sub_cent_prices, 1);
}

// ------------------------------------------------------------------------ REST

#[test]
fn a_busy_server_is_asked_again_when_it_says() {
    assert_eq!(retry(0, 200, None, 0, 0), Retry::Take);
    assert_eq!(retry(0, 404, None, 0, 0), Retry::Take);
    assert!(matches!(retry(0, 429, Some("2"), 0, 0), Retry::After(ms) if ms >= 2_000));
    // An HTTP date: two seconds past the epoch, read at the epoch.
    assert!(matches!(
        retry(0, 429, Some("Thu, 01 Jan 1970 00:00:02 GMT"), 0, 0),
        Retry::After(ms) if ms >= 2_000
    ));
    assert!(matches!(retry(0, 503, None, 0, 0), Retry::After(_)));
    assert_eq!(trim_slashes("http://x//"), "http://x");
}

#[test]
fn no_page_is_asked_for_twice() {
    assert!(matches!(Pager::new(Some(0)), Err(PageError::NoPages)));
    let mut pager = Pager::new(Some(3)).unwrap();
    assert_eq!(pager.cursor(), "");
    assert_eq!(pager.turn(Some("a".into())), Ok(true));
    assert_eq!(pager.cursor(), "a");
    assert_eq!(pager.turn(Some("a".into())), Err(PageError::RepeatedCursor));
    let mut last = Pager::new(None).unwrap();
    assert_eq!(last.turn(None), Ok(false));
    let mut short = Pager::new(Some(1)).unwrap();
    assert_eq!(
        short.turn(Some("a".into())),
        Err(PageError::LimitReached { pages: 1 })
    );
}

// ------------------------------------------------------------- known members

/// A delta with `extra` members before its own.
fn delta(extra: &str) -> String {
    format!(
        r#"{{ {extra} "type" : "orderbook_delta", "seq":2,
        "msg":{{"market_ticker":"KXA","price_dollars":"0.4000","delta_fp":"5.00","side":"yes","ts_ms":900}} }}"#
    )
}

#[test]
fn a_frame_takes_what_it_knows_once_and_skips_the_rest_unread() {
    let mut parser = Parser::new(&tickers()).unwrap();
    let plain = parser.parse(&delta(""), 1_000);
    assert!(matches!(plain, Some(FeedEvent::Delta { seq: 2, price: 40, .. })));
    // Nothing of an unknown member is read but its form, however often it comes.
    for extra in [
        r#""sid":1e999,"#,
        r#""sid":"\ud800","#,
        r#""sid":1,"sid":{"seq":3},"#,
    ] {
        assert_eq!(parser.parse(&delta(extra), 1_000), plain, "{extra}");
    }
    let deep = format!(r#""sid":{}{},"#, "[".repeat(300), "]".repeat(300));
    assert_eq!(parser.parse(&delta(&deep), 1_000), plain);
    assert_eq!(parser.metrics.parse_errors, 0);

    // A known one that comes twice is refused, under whatever spelling.
    let mut refused = 0;
    for frame in [
        delta(r#""seq":2,"#),
        delta(r#""s\u0065q":2,"#),
        delta(r#""msg":null,"#),
        delta(r#""sid":tru,"#),
        delta(r#""sid":1,,"#),
        delta(r#""sid" 1,"#),
        delta("sid:1,"),
        delta(r#""\ud800":1,"#),
        format!("{} x", delta("")),
        delta("").replace("} }", "}, }"),
    ] {
        assert_eq!(parser.parse(&frame, 1_000), None, "{frame}");
        refused += 1;
        assert_eq!(parser.metrics.parse_errors, refused, "{frame}");
    }
    // What the message holds is read whole, the last of a repeated member.
    let twice = delta("").replace(
        r#""price_dollars":"0.4000""#,
        r#""price_dollars":"0.3000","price_dollars":"0.4000""#,
    );
    assert_eq!(parser.parse(&twice, 1_000), plain);
    // A frame may also be written by position.
    let listed = r#" [ "orderbook_delta", 2,
        {"market_ticker":"KXA","price_dollars":"0.4000","delta_fp":"5.00","side":"yes","ts_ms":900} ] "#;
    assert_eq!(parser.parse(listed, 1_000), plain);
    assert_eq!(parser.parse(r#"["orderbook_delta",2,]"#, 1_000), None);
}

#[test]
fn an_acknowledgement_is_heard_whatever_else_the_frame_repeats() {
    let mut parser = Parser::new(&tickers()).unwrap();
    let mut link = Link::new();
    let frame = Frame::Text(
        r#"{"id":1,"type":"subscribed","type":"subscribed","msg":{"channel":"orderbook_delta"}}"#
            .into(),
    );
    link.hear(&mut parser, &tickers(), &frame, 1_000);
    assert!(link.acknowledged);
    assert_eq!(parser.metrics.parse_errors, 1);
}

#[test]
fn a_token_frame_takes_what_it_knows_once() {
    let mut parser = TokenParser::new(&tokens()).unwrap();
    let book = |level: &str| {
        format!(
            r#"[{{"asset_id":"111","timestamp":"900","x":1e999,"bids":[{{{level}}}],"asks":[]}}]"#
        )
    };
    let plain = parser.parse(&book(r#""price":"0.40","size":"5""#), 1_000);
    assert!(plain.is_some());
    assert_eq!(
        parser.parse(&book(r#""price":"0.40","x":1e999,"size":"5""#), 1_000),
        plain
    );
    assert_eq!(
        parser.parse(&book(r#""price":"0.40","size":"5","size":"5""#), 1_000),
        None
    );
    assert_eq!(parser.metrics.parse_errors, 1);

    let change = |extra: &str| {
        format!(
            r#"{{"event_type":"price_change",{extra}"timestamp":"900","price_changes":[{{"asset_id":"111","price":"0.40","size":"5","side":"BUY"}}]}}"#
        )
    };
    assert!(parser.parse(&change(""), 1_000).is_some());
    assert!(parser.parse(&change(r#""x":1e999,"#), 1_000).is_some());
    assert_eq!(parser.parse(&change(r#""timestamp":"900","#), 1_000), None);
    assert_eq!(
        parser.parse(&change(r#""event_type":"price_change","#), 1_000),
        None
    );
    assert_eq!(parser.metrics.parse_errors, 3);
    // A print of a trade is read for its type alone.
    let print = r#"{"event_type":"last_trade_price","timestamp":"900","timestamp":1e999}"#;
    assert_eq!(parser.parse(print, 1_000), None);
    assert_eq!(parser.metrics.parse_errors, 3);
}
