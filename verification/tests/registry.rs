use sum100::registry::load::strike_hundredths;
use sum100::registry::{GroupId, Registry, RegistryError, Relation};
use sum100::types::{ContractId, Side, Venue};

fn c(id: u32) -> ContractId {
    ContractId(id)
}

#[test]
fn reverse_index_finds_every_group_a_contract_belongs_to() {
    let registry = Registry::new(vec![
        (
            Relation::Exhaustive {
                members: vec![c(0), c(1), c(2)],
            },
            1_000,
        ),
        (Relation::Complement { contract: c(1) }, 1_000),
    ])
    .unwrap();
    assert_eq!(registry.groups_for(c(1)), &[GroupId(0), GroupId(1)]);
    assert_eq!(registry.groups_for(c(2)), &[GroupId(0)]);
    // A contract nobody constrains is not an error, it just has no groups.
    assert!(registry.groups_for(c(9)).is_empty());
}

#[test]
fn malformed_groups_are_rejected_at_construction() {
    assert_eq!(
        Registry::new(vec![(
            Relation::Exhaustive {
                members: vec![c(0)]
            },
            1
        )])
        .err(),
        Some(RegistryError::TooFewMembers {
            group: GroupId(0),
            got: 1
        })
    );
    assert_eq!(
        Registry::new(vec![(
            Relation::Exhaustive {
                members: vec![c(0), c(1), c(0)]
            },
            1
        )])
        .err(),
        Some(RegistryError::DuplicateMember {
            group: GroupId(0),
            contract: c(0)
        })
    );
}

const MINIMAL: &str = r#"
[[event]]
id = "fed-2026-09"
description = "FOMC rate decision, September 2026"
resolves_at = "2026-09-17T18:00:00Z"
resolution_source = "FOMC statement"

[[event.group]]
type = "exhaustive"
members = [
  { venue = "kalshi", ticker = "KXFED-26SEP-C50" },
  { venue = "kalshi", ticker = "KXFED-26SEP-C25" },
  { venue = "kalshi", ticker = "KXFED-26SEP-NC" },
]

[[event.group]]
type = "equivalent"
verified = false
members = [
  { venue = "kalshi", ticker = "KXFED-26SEP-C25" },
  { venue = "polymarket", token = "0xabc" },
]
"#;

#[test]
fn loads_events_bindings_groups_and_the_index_from_toml() {
    let registry = Registry::parse(MINIMAL).unwrap();
    let event = registry.event_by_key("fed-2026-09").unwrap();
    assert_eq!(event.resolution_source, "FOMC statement");
    assert_eq!(event.resolves_at.to_rfc3339(), "2026-09-17T18:00:00+00:00");
    assert_eq!(registry.groups().len(), 2);

    // Every Kalshi ticker interns before the Polymarket token, in file order.
    assert_eq!(
        registry.tickers(Venue::Kalshi),
        ["KXFED-26SEP-C50", "KXFED-26SEP-C25", "KXFED-26SEP-NC"]
    );
    assert_eq!(registry.tickers(Venue::Polymarket), ["0xabc"]);
    let c25 = registry
        .contracts()
        .get(Venue::Kalshi, "KXFED-26SEP-C25")
        .unwrap();
    assert_eq!(c25, ContractId(1));
    assert_eq!(
        registry.contracts().get(Venue::Polymarket, "0xabc"),
        Some(ContractId(3))
    );

    // The reverse index puts the shared contract in both of its groups.
    assert_eq!(registry.groups_for(c25), &[GroupId(0), GroupId(1)]);
    let binding = registry.binding(c25).unwrap();
    assert_eq!(binding.venue, Venue::Kalshi);
    assert_eq!(binding.event, event.id);
    assert_eq!(binding.side, Side::Yes);

    // Resolution time reaches the group, which is what ranking needs.
    let group = registry.group(GroupId(0)).unwrap();
    assert_eq!(group.resolves_at_ms, 1_789_668_000_000);
    assert!(matches!(
        registry.group(GroupId(1)).unwrap().relation,
        Relation::Equivalent {
            verified: false,
            ..
        }
    ));
}

#[test]
fn a_ladder_written_backwards_is_rejected() {
    let ladder = |a: &str, b: &str| {
        format!(
            r#"
[[event]]
id = "btc"
description = "BTC"
resolves_at = "2026-09-14T21:00:00Z"
resolution_source = "Kalshi"

[[event.group]]
type = "monotone"
members = [
  {{ venue = "kalshi", ticker = "{a}" }},
  {{ venue = "kalshi", ticker = "{b}" }},
]
"#
        )
    };
    // Ascending strike is weakest claim first, which is the required order.
    assert!(
        Registry::parse(&ladder(
            "KXBTCD-26SEP1417-T73999.99",
            "KXBTCD-26SEP1417-T74249.99"
        ))
        .is_ok()
    );
    // Reversed, every adjacent pair would look inverted and the solver would
    // emit a trade for each one.
    let error = Registry::parse(&ladder(
        "KXBTCD-26SEP1417-T74249.99",
        "KXBTCD-26SEP1417-T73999.99",
    ))
    .err().unwrap();
    assert!(format!("{error}").contains("not ascending"), "{error}");
    // A ticker with no strike to read is left alone rather than guessed at.
    assert!(Registry::parse(&ladder("KXFED-26SEP-C50", "KXFED-26SEP-C25")).is_ok());
}

#[test]
fn malformed_files_fail_at_load_with_a_reason() {
    let cases = [
        (
            "verifed = true",
            "[[event.group]]
type = \"equivalent\"
verifed = true
members = []",
        ),
        (
            "does not take a verified flag",
            "[[event.group]]
type = \"exhaustive\"
verified = true
members = [{ venue = \"kalshi\", ticker = \"A\" }, { venue = \"kalshi\", ticker = \"B\" }]",
        ),
        (
            "must state verified",
            "[[event.group]]
type = \"equivalent\"
members = [{ venue = \"kalshi\", ticker = \"A\" }, { venue = \"polymarket\", token = \"0x1\" }]",
        ),
        (
            "unknown group type",
            "[[event.group]]
type = \"exhastive\"
members = [{ venue = \"kalshi\", ticker = \"A\" }, { venue = \"kalshi\", ticker = \"B\" }]",
        ),
        (
            "unknown venue",
            "[[event.group]]
type = \"complement\"
members = [{ venue = \"betfair\", ticker = \"A\" }]",
        ),
        (
            "neither ticker nor token",
            "[[event.group]]
type = \"complement\"
members = [{ venue = \"kalshi\" }]",
        ),
        ("is not RFC3339", ""),
    ];
    for (needle, group) in cases {
        let resolves_at = if needle == "is not RFC3339" {
            "next tuesday"
        } else {
            "2026-09-17T18:00:00Z"
        };
        let text = format!(
            "[[event]]
id = \"e\"
description = \"d\"
resolves_at = \"{resolves_at}\"
resolution_source = \"s\"

{group}"
        );
        let error = Registry::parse(&text)
            .err()
            .unwrap_or_else(|| panic!("expected a failure mentioning {needle:?}"));
        assert!(
            format!("{error}").contains(needle),
            "expected {needle:?} in: {error}"
        );
    }
    // An empty file is a mistake, not an empty engine.
    assert!(Registry::parse("").is_err());
}

#[test]
fn a_contract_cannot_sit_in_two_partitions_or_two_events() {
    let two_sets = r#"
[[event]]
id = "e"
description = "d"
resolves_at = "2026-09-17T18:00:00Z"
resolution_source = "s"

[[event.group]]
type = "exhaustive"
members = [{ venue = "kalshi", ticker = "A" }, { venue = "kalshi", ticker = "B" }]

[[event.group]]
type = "exhaustive"
members = [{ venue = "kalshi", ticker = "B" }, { venue = "kalshi", ticker = "C" }]
"#;
    let error = Registry::parse(two_sets).err().unwrap();
    assert!(
        format!("{error}").contains("two exhaustive sets"),
        "{error}"
    );

    let two_events = r#"
[[event]]
id = "first"
description = "d"
resolves_at = "2026-09-17T18:00:00Z"
resolution_source = "s"

[[event.group]]
type = "complement"
members = [{ venue = "kalshi", ticker = "A" }]

[[event]]
id = "second"
description = "d"
resolves_at = "2026-10-17T18:00:00Z"
resolution_source = "s"

[[event.group]]
type = "complement"
members = [{ venue = "kalshi", ticker = "A" }]
"#;
    // Two resolution times for one contract means ranking it is guesswork.
    let error = Registry::parse(two_events).err().unwrap();
    assert!(format!("{error}").contains("two events"), "{error}");
}

#[test]
fn missing_tickers_are_reported_against_venue_metadata() {
    let registry = Registry::parse(MINIMAL).unwrap();
    let listed: Vec<String> = ["KXFED-26SEP-C50", "KXFED-26SEP-NC"]
        .iter()
        .map(|s| s.to_string())
        .collect();
    let listed: &[String] = &listed;
    assert_eq!(
        registry.validate_against_markets(Venue::Kalshi, listed),
        vec!["KXFED-26SEP-C25"]
    );
    // The Polymarket token is not checked against a Kalshi listing.
    assert!(
        registry
            .validate_against_markets(Venue::Polymarket, listed)
            .len()
            == 1
    );
}

#[test]
fn strikes_parse_out_of_real_tickers() {
    assert_eq!(
        strike_hundredths("KXBTCD-26SEP1417-T73999.99"),
        Some(7_399_999)
    );
    assert_eq!(
        strike_hundredths("KXBTCD-26SEP1417-T74000"),
        Some(7_400_000)
    );
    assert_eq!(strike_hundredths("KXFED-26SEP-C50"), None);
    assert_eq!(strike_hundredths(""), None);
}

#[test]
fn ladder_states_are_exactly_the_cut_points() {
    let states = Relation::Monotone {
        ordered: vec![c(0), c(1), c(2)],
    }
    .resolution_states();
    assert_eq!(
        states,
        vec![vec![], vec![c(0)], vec![c(0), c(1)], vec![c(0), c(1), c(2)],]
    );
    // A two-rung ladder and the implication it encodes agree exactly.
    let ladder = Relation::Monotone {
        ordered: vec![c(0), c(1)],
    }
    .resolution_states();
    let implies = Relation::Implies {
        antecedent: c(1),
        consequent: c(0),
    }
    .resolution_states();
    assert_eq!(ladder, implies);
}

/// A registry over eighty strikes, each with its complement, and the ladder
/// over all of them.
#[test]
fn a_full_strike_ladder_loads() {
    let mut text = String::from(
        "[[event]]\nid = \"btc\"\ndescription = \"BTC\"\nresolves_at = \"2026-09-14T21:00:00Z\"\nresolution_source = \"Kalshi\"\n",
    );
    let ticker = |i: usize| format!("KXBTCD-26SEP1417-T{}.99", 60_000 + 250 * i);
    for i in 0..80 {
        text.push_str(&format!(
            "\n[[event.group]]\ntype = \"complement\"\nmembers = [{{ venue = \"kalshi\", ticker = \"{}\" }}]\n",
            ticker(i)
        ));
    }
    text.push_str("\n[[event.group]]\ntype = \"monotone\"\nmembers = [\n");
    for i in 0..80 {
        text.push_str(&format!("  {{ venue = \"kalshi\", ticker = \"{}\" }},\n", ticker(i)));
    }
    text.push_str("]\n");
    let registry = Registry::parse(&text).unwrap();
    assert_eq!(registry.tickers(Venue::Kalshi).len(), 80);
    assert_eq!(registry.groups().len(), 81);
    assert_eq!(registry.events().len(), 1);
    for id in 0..80u32 {
        assert_eq!(registry.groups_for(ContractId(id)).len(), 2);
    }
    assert_eq!(registry.inferred_count(), 0);
    assert_eq!(registry.bindings().len(), 80);
}

#[test]
fn a_member_that_names_nothing_usable_is_refused() {
    let cases = [
        ("member has both ticker and token", "{ venue = \"kalshi\", ticker = \"A\", token = \"B\" }"),
        ("member identifier is empty", "{ venue = \"kalshi\", ticker = \"  \" }"),
        ("unknown side \"maybe\"; expected yes or no", "{ venue = \"kalshi\", ticker = \"A\", side = \"maybe\" }"),
        ("missing field `venue`", "{ ticker = \"A\" }"),
        ("invalid type for `ticker`, expected a string", "{ venue = \"kalshi\", ticker = 3 }"),
        ("unknown field `tiker`: tiker = \"A\"", "{ venue = \"kalshi\", tiker = \"A\" }"),
    ];
    for (needle, member) in cases {
        let text = format!(
            "[[event]]\nid = \"e\"\ndescription = \"d\"\nresolves_at = \"2026-09-17T18:00:00Z\"\nresolution_source = \"s\"\n\n[[event.group]]\ntype = \"complement\"\nmembers = [{member}]\n"
        );
        let error = Registry::parse(&text).err().unwrap();
        assert!(error.contains(needle), "expected {needle:?} in: {error}");
    }
}

#[test]
fn a_file_that_is_not_a_registry_is_refused() {
    assert_eq!(
        Registry::parse("").err().unwrap(),
        "registry defines no events"
    );
    assert!(Registry::parse("[[event]").is_err());
    assert_eq!(
        Registry::parse("event = 3").err().unwrap(),
        "invalid type for `event`, expected an array"
    );
    let twice = "[[event]]\nid = \"e\"\ndescription = \"d\"\nresolves_at = \"2026-09-17T18:00:00Z\"\nresolution_source = \"s\"\n";
    assert_eq!(
        Registry::parse(&format!("{twice}{twice}")).err().unwrap(),
        "duplicate event id \"e\""
    );
}

#[test]
fn a_group_of_the_wrong_size_is_refused_with_its_reason() {
    let parse = |group: &str| {
        Registry::parse(&format!(
            "[[event]]\nid = \"e\"\ndescription = \"d\"\nresolves_at = \"2026-09-17T18:00:00Z\"\nresolution_source = \"s\"\n\n[[event.group]]\n{group}\n"
        ))
        .err()
        .unwrap()
    };
    let a = "{ venue = \"kalshi\", ticker = \"A\" }";
    let b = "{ venue = \"kalshi\", ticker = \"B\" }";
    assert_eq!(
        parse(&format!("type = \"complement\"\nmembers = [{a}, {b}]")),
        "event e: complement takes exactly one member"
    );
    assert_eq!(
        parse(&format!("type = \"implies\"\nmembers = [{a}]")),
        "event e: implies takes exactly two members, antecedent first"
    );
    assert_eq!(
        parse(&format!("type = \"equivalent\"\nverified = true\nmembers = [{a}]")),
        "event e: equivalent takes exactly two members"
    );
    assert_eq!(
        parse(&format!("type = \"exhaustive\"\nmembers = [{a}, {a}]")),
        "event e: group 0 lists contract 0 twice"
    );
    assert_eq!(
        parse(&format!("type = \"exhaustive\"\nmembers = [{a}]")),
        "event e: group 0 has only 1 member(s)"
    );
}

#[test]
fn a_venue_timestamp_with_an_offset_is_the_same_instant() {
    let registry = Registry::parse(
        "[[event]]\nid = \"e\"\ndescription = \"d\"\nresolves_at = \"2026-09-17T14:00:00-04:00\"\nresolution_source = \"s\"\ntheme = \"fed\"\nresolution_rules_hash = 7\n",
    )
    .unwrap();
    let event = registry.event_by_key("e").unwrap();
    assert_eq!(event.resolves_at.to_rfc3339(), "2026-09-17T18:00:00+00:00");
    assert_eq!(event.theme.as_deref(), Some("fed"));
    assert_eq!(event.resolution_rules_hash, 7);
}
