use sum100::config::Config;
use sum100::discovery::DiscoveryValidation;
use sum100::run::{
    plan, reads_polymarket, render_discovery_validation_errors, series_of, source, RunArgs, Source,
};

fn args() -> RunArgs {
    RunArgs {
        live: true,
        replay: false,
        prod: true,
        capital: None,
        daily_loss_limit: None,
        max_per_event: None,
        max_per_theme: None,
        live_orders: false,
        auto_discover: false,
    }
}

#[test]
fn a_run_has_one_source_of_events() {
    let config = Config::default();
    let mut both = args();
    both.replay = true;
    assert_eq!(
        source(&both, &config, "c.toml").unwrap_err(),
        "pass exactly one of --live or --replay <FILE>"
    );
    assert_eq!(source(&args(), &config, "c.toml"), Ok(Source::File));
    let mut discover = args();
    discover.auto_discover = true;
    assert_eq!(source(&discover, &config, "c.toml"), Ok(Source::Venue));
    let mut off = Config::default();
    off.discovery.enabled = false;
    assert_eq!(
        source(&discover, &off, "c.toml").unwrap_err(),
        "--auto-discover needs discovery.enabled = true in c.toml"
    );
    assert!(!reads_polymarket(&args(), &config));
}

#[test]
fn real_money_needs_every_opt_in() {
    let mut config = Config::default();
    let mut asked = args();
    asked.live_orders = true;
    assert_eq!(
        plan(&asked, &config, "c.toml", 1).unwrap_err(),
        "--live-orders needs executor.paper_mode = false in c.toml"
    );
    config.executor.paper_mode = false;
    assert!(plan(&asked, &config, "c.toml", 1).unwrap().engine.allow_live_orders);
    // Without the flag the same configuration still simulates.
    assert!(!plan(&args(), &config, "c.toml", 1).unwrap().engine.allow_live_orders);
    asked.prod = false;
    assert_eq!(
        plan(&asked, &config, "c.toml", 1).unwrap_err(),
        "--live-orders needs --prod"
    );
    asked.prod = true;
    asked.live = false;
    assert_eq!(
        plan(&asked, &config, "c.toml", 1).unwrap_err(),
        "--live-orders needs --live; a recording cannot place orders"
    );
}

#[test]
fn what_is_given_overrides_what_is_configured() {
    let config = Config::default();
    let mut given = args();
    given.capital = Some(7);
    given.max_per_event = Some(8);
    let made = plan(&given, &config, "c.toml", 1).unwrap();
    assert_eq!(made.starting_capital, 7);
    assert_eq!(made.daily_loss_limit, 100_000);
    assert_eq!(made.engine.risk.max_per_event_cents, 8);
    assert_eq!(made.engine.risk.max_per_theme_cents, 100_000);
    given.capital = Some(0);
    assert_eq!(
        plan(&given, &config, "c.toml", 1).unwrap_err(),
        "--capital must be positive"
    );
    given.capital = None;
    given.daily_loss_limit = Some(-1);
    assert_eq!(
        plan(&given, &config, "c.toml", 1).unwrap_err(),
        "--daily-loss-limit must be positive"
    );
    assert_eq!(
        plan(&args(), &config, "c.toml", 0).unwrap_err(),
        "registry defines no Kalshi contracts"
    );
}

#[test]
fn each_series_is_asked_for_once() {
    let tickers: Vec<String> = ["KXFED-26SEP-C25", "KXBTCD-26SEP-T1", "KXFED-26OCT-C25", "PLAIN"]
        .iter()
        .map(|t| t.to_string())
        .collect();
    assert_eq!(series_of(&tickers), ["KXBTCD", "KXFED", "PLAIN"]);
}

#[test]
fn only_the_first_few_errors_are_shown() {
    let text = |prefix: &str, n: usize| (0..n).map(|i| format!("{prefix}{i}")).collect();
    let mut validation = DiscoveryValidation {
        markets: 0,
        events: 0,
        groups: 0,
        live_markets: 0,
        structural_errors: text("s", 2),
        closed_markets: text("c", 1),
        ladder_errors: text("l", 1),
    };
    assert_eq!(
        render_discovery_validation_errors(&validation),
        "s0; s1; c0; l0"
    );
    validation.closed_markets = text("c", 9);
    assert_eq!(
        render_discovery_validation_errors(&validation),
        "s0; s1; c0; c1; c2; c3; c4; c5"
    );
}
