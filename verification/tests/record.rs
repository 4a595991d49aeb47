use sum100::feed::kalshi::{Frame, Link, Parser};
use sum100::feed::replay::{
    describe, due_ms, note, select, sessions, Pace, Played, ReplayError, ReplayFeed, ReplayOptions,
};
use sum100::feed::FeedEvent;
use sum100::record::{Control, Journal, Record, RecordError, CONTROL_KIND};
use sum100::types::{ContractId, Venue};

const DAY: u64 = 86_400_000;

fn session(journal: &mut Journal, at: u64) -> Record {
    journal
        .control(
            at,
            &Control::SessionStarted {
                environment: "demo".into(),
                tickers: vec!["KXA".into()],
            },
        )
        .unwrap()
}

fn journal() -> Journal {
    let mut journal = Journal::new(Venue::Kalshi);
    journal.open("1970-01-01".into());
    journal
}

#[test]
fn a_day_has_one_file_and_sequences_rise() {
    let mut journal = Journal::new(Venue::Kalshi);
    let day = journal.due(1_000).unwrap().unwrap();
    assert_eq!(day, "1970-01-01");
    assert_eq!(journal.file_name(&day), "kalshi-1970-01-01.ndjson.gz");
    journal.open(day);
    assert_eq!(journal.due(2_000).unwrap(), None);
    assert_eq!(journal.due(DAY).unwrap().as_deref(), Some("1970-01-02"));
    let first = journal.payload(1_000, "text", "a\n").unwrap();
    let second = journal.payload(1_000, "text", "b").unwrap();
    assert!(second.sequence > first.sequence);
    // One trailing line feed is the line's own.
    assert_eq!(first.raw, "a");
    assert!(matches!(
        journal.payload(1_000, CONTROL_KIND, "x"),
        Err(RecordError::ReservedKind)
    ));
}

#[test]
fn only_the_kind_makes_a_control_envelope() {
    let mut journal = journal();
    let raw = r#"{"event":"session_started","environment":"demo","tickers":["KXA"]}"#;
    let text = journal.payload(1, "text", raw).unwrap();
    assert_eq!(text.control(), Ok(None));
    let control = session(&mut journal, 2);
    assert_eq!(
        control.control(),
        Ok(Some(Control::SessionStarted {
            environment: "demo".into(),
            tickers: vec!["KXA".into()],
        }))
    );
    let broken = Record {
        received_at_ms: 1,
        sequence: 9,
        kind: CONTROL_KIND.into(),
        raw: "{}".into(),
    };
    assert_eq!(
        broken.control(),
        Err(RecordError::MalformedControl { sequence: 9 })
    );
}

#[test]
fn what_is_written_is_what_is_read() {
    let record = Record {
        received_at_ms: 1_700_000_000_000,
        sequence: u64::MAX,
        kind: "text".into(),
        raw: "{\"a\":\"\\u00e9\"}\r\n\u{1}\u{2028} é".into(),
    };
    let line = record.line();
    assert!(!line.contains('\n'));
    assert!(line.starts_with(
        "{\"received_at_ms\":1700000000000,\"sequence\":18446744073709551615,\"kind\":\"text\",\"raw\":\""
    ));
    assert_eq!(Record::parse(&line), Ok(record));
    assert_eq!(Record::parse(""), Err(RecordError::BlankLine));
    assert_eq!(RecordError::BlankLine.message(), "blank line in recording");
    for bad in ["{", "{}", "[1,2,\"text\"]", r#"{"received_at_ms":1,"sequence":-1,"kind":"text","raw":""}"#] {
        assert_eq!(Record::parse(bad), Err(RecordError::MalformedLine));
    }
    let plain = Record::parse(r#"[5,6,"text","x"]"#).unwrap();
    assert_eq!((plain.received_at_ms, plain.sequence), (5, 6));
    for control in [
        Control::SessionStarted {
            environment: "de\"mo".into(),
            tickers: vec!["KXA".into(), "KXB".into()],
        },
        Control::Disconnected { reason: "idle".into() },
        Control::Reconnected { attempt: 3 },
        Control::Resubscribed { tickers: vec![] },
    ] {
        let mut journal = journal();
        let envelope = journal.control(7, &control).unwrap();
        let read = Record::parse(&envelope.line()).unwrap();
        assert_eq!(read, envelope);
        assert_eq!(read.control(), Ok(Some(control)));
    }
    assert_eq!(
        Control::Reconnected { attempt: 3 }.to_json(),
        r#"{"event":"reconnected","attempt":3}"#
    );
}

fn options(tickers: Option<Vec<String>>, session: Option<usize>) -> ReplayOptions {
    ReplayOptions {
        tickers,
        pace: Pace::Max,
        session,
    }
}

#[test]
fn a_recorded_frame_replays_as_it_was_heard() {
    let mut journal = journal();
    let start = session(&mut journal, 1);
    let frame = journal
        .payload(
            2,
            "text",
            r#"{"type":"orderbook_snapshot","seq":7,"msg":{"market_ticker":"KXA","yes_dollars_fp":[["0.0800","3.00"]],"no_dollars_fp":[]}}"#,
        )
        .unwrap();
    let mut sessions = Vec::new();
    note(&mut sessions, &start).unwrap();
    note(&mut sessions, &frame).unwrap();
    assert_eq!(sessions.len(), 1);
    assert_eq!(sessions[0].records, 2);
    let selection = select(&sessions, &options(None, None)).unwrap();
    assert_eq!(selection.tickers, ["KXA"]);
    let mut feed = ReplayFeed::new(selection).unwrap();
    assert!(feed.play(&start).is_ok());
    match feed.play(&frame).unwrap() {
        Played::Events(events) => {
            assert_eq!(events.len(), 1);
            assert!(matches!(
                events[0],
                FeedEvent::Snapshot {
                    contract: ContractId(0),
                    seq: 7,
                    ..
                }
            ));
        }
        other => panic!("expected events, got {other:?}"),
    }
    assert_eq!(feed.venue(), Venue::Kalshi);
    assert_eq!(feed.tickers(), ["KXA"]);
}

#[test]
fn a_replay_tells_what_the_live_feed_told() {
    let tickers: Vec<String> = vec!["KXA".into()];
    let mut parser = Parser::new(&tickers).unwrap();
    let mut link = Link::new();
    let mut journal = journal();
    let mut records = vec![session(&mut journal, 1)];
    let mut told = Vec::new();
    let frames = [
        Frame::Text(r#"{"type":"subscribed","id":1,"msg":{"channel":"orderbook_delta"}}"#.into()),
        Frame::Text(
            r#"{"type":"orderbook_snapshot","seq":7,"msg":{"market_ticker":"KXA","yes_dollars_fp":[["0.0800","3.00"]]}}"#
                .into(),
        ),
        Frame::Ping(vec![1, 2]),
        Frame::Text("not json".into()),
        Frame::Close(Some((1000, "bye".into()))),
    ];
    for socket in 0..2u64 {
        link.connected();
        for (at, frame) in frames.iter().enumerate() {
            let at = 10 * socket + at as u64 + 2;
            let (kind, raw) = frame.recorded();
            records.push(journal.payload(at, kind, &raw).unwrap());
            let heard = link.hear(&mut parser, &tickers, frame, at);
            if let Some(control) = &heard.step.control {
                records.push(journal.control(at, control).unwrap());
            }
            told.extend(heard.step.events);
            assert_eq!(heard.dropped, at % 10 == 6);
        }
        let step = link.dropped("closed");
        records.push(journal.control(9, step.control.as_ref().unwrap()).unwrap());
        told.extend(step.events);
    }
    let selection = select(&sessions(&records).unwrap(), &options(None, None)).unwrap();
    let mut feed = ReplayFeed::new(selection).unwrap();
    let mut played = Vec::new();
    for record in &records {
        let line = Record::parse(&record.line()).unwrap();
        match feed.play(&line).unwrap() {
            Played::Events(events) => played.extend(events),
            other => panic!("expected events, got {other:?}"),
        }
    }
    assert_eq!(played, told);
    assert_eq!(played.len(), 5);
    assert_eq!(feed.metrics(), parser.metrics);
    assert_eq!(feed.metrics().reconnections, 1);
}

#[test]
fn a_file_of_several_sessions_needs_a_choice() {
    let mut journal = journal();
    let records = [session(&mut journal, 1), session(&mut journal, 5)];
    let sessions = sessions(&records).unwrap();
    assert_eq!(sessions.len(), 2);
    assert_eq!(sessions[1].first_received_at_ms, 5);
    assert!(matches!(
        select(&sessions, &options(None, None)),
        Err(ReplayError::SeveralSessions { sessions: 2, .. })
    ));
    assert!(describe(&sessions).contains("KXA") || !describe(&sessions).is_empty());
    assert!(matches!(
        select(&sessions, &options(None, Some(3))),
        Err(ReplayError::SessionOutOfRange { index: 3, sessions: 2 })
    ));
    assert_eq!(select(&sessions, &options(None, Some(2))).unwrap().session, 2);
    assert!(matches!(
        select(&sessions, &options(Some(vec!["KXB".into()]), Some(1))),
        Err(ReplayError::TickersDiffer { .. })
    ));
    assert!(matches!(
        select(&[], &options(None, None)),
        Err(ReplayError::NoRecords)
    ));
    let mut feed = ReplayFeed::new(select(&sessions, &options(None, Some(1))).unwrap()).unwrap();
    feed.play(&records[0]).unwrap();
    assert_eq!(feed.play(&records[1]), Ok(Played::Finished));
}

#[test]
fn a_recording_can_be_played_at_its_own_pace() {
    assert_eq!(due_ms(Pace::Max, 100, 350), None);
    assert_eq!(due_ms(Pace::Realtime, 100, 350), Some(250));
}

#[test]
fn an_envelope_takes_what_it_knows_once() {
    let line = |extra: &str| {
        format!(r#"{{"received_at_ms":1,{extra}"sequence":2,"kind":"text","raw":"x"}}"#)
    };
    assert_eq!(Record::parse(&line("")).unwrap().raw, "x");
    assert_eq!(Record::parse(&line(r#""y":1e999,"#)).unwrap().raw, "x");
    assert_eq!(
        Record::parse(&line(r#""kind":"text","#)),
        Err(RecordError::MalformedLine)
    );

    let control = |raw: &str| {
        Record {
            received_at_ms: 1,
            sequence: 2,
            kind: CONTROL_KIND.into(),
            raw: raw.into(),
        }
        .control()
    };
    let lost = Ok(Some(Control::Disconnected { reason: "r".into() }));
    assert_eq!(control(r#"{"event":"disconnected","reason":"r"}"#), lost);
    // A field of another event is none of this one, and may come twice.
    assert_eq!(
        control(r#"{"tickers":1,"event":"disconnected","reason":"r","tickers":2}"#),
        lost
    );
    let refused = Err(RecordError::MalformedControl { sequence: 2 });
    for raw in [
        r#"{"event":"disconnected","reason":"r","reason":"r"}"#,
        r#"{"event":"disconnected","event":"disconnected","reason":"r"}"#,
        // The name decides what counts, so everything has to be readable.
        r#"{"event":"disconnected","reason":"r","x":1e999}"#,
    ] {
        assert_eq!(control(raw), refused, "{raw}");
    }
}
