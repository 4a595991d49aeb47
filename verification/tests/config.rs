use sum100::config::{Config, DiscoverySettings, RiskSettings, VenueSettings};
use sum100::fees::{FeeModel, KalshiFees};
use sum100::risk::RiskLimits;
use sum100::solver::types::SolverConfig;
use sum100::types::{ContractId, Ratio};

#[test]
fn paper_mode_is_the_default_even_with_no_executor_block() {
    assert!(Config::parse("").unwrap().executor.paper_mode);
    assert!(
        Config::parse("[executor]\natomic_timeout_ms = 250\n")
            .unwrap()
            .executor
            .paper_mode
    );
    // Zero timeouts and zero capital are misconfigurations, not intent.
    assert!(Config::parse("[executor]\natomic_timeout_ms = 0\n").is_err());
    assert!(Config::parse("[risk]\nstarting_capital_cents = 0\n").is_err());
}

#[test]
fn an_empty_config_is_the_defaults() {
    let config = Config::parse("").unwrap();
    assert_eq!(config.engine, SolverConfig::default());
    assert_eq!(config.registry.path, "config/registry.toml");
    let plain = Config::default();
    assert_eq!(format!("{:?}", config), format!("{:?}", plain));
    assert!(plain.validate().is_ok());
    assert!(plain.venues.kalshi.enabled);
    assert!(!plain.venues.polymarket.enabled);
    assert_eq!(plain.engine.max_book_age_ms, 500);
    assert_eq!(plain.engine.min_net_edge_cents, 1);
    assert_eq!(plain.engine.max_position_size, 500);
    assert_eq!(plain.risk.max_per_event_cents, 50_000);
}

#[test]
fn a_typo_fails_at_startup_rather_than_being_ignored() {
    // This would otherwise start with the default position size and nobody
    // would find out until later.
    let error = Config::parse("[engine]\nmax_positon_size = 2000\n").unwrap_err();
    assert!(
        error.to_string().contains("max_positon_size"),
        "error should name the bad key: {error}"
    );
    assert!(Config::parse("[engine]\nmax_position_size = 0\n").is_err());
    assert!(Config::parse("[engne]\n").unwrap_err().contains("engne"));
    assert!(Config::parse("[venues.nasdaq]\nenabled = true\n").is_err());
}

#[test]
fn fee_multiplier_becomes_an_exact_rational() {
    let config = Config::parse("[venues.kalshi]\nfee_multiplier = 0.5\n").unwrap();
    let fees = config.fee_models();
    assert_eq!(fees.kalshi.multiplier_numer, 500);
    assert_eq!(fees.kalshi.multiplier_denom, 1000);
    // Half the schedule is half the charge, to the cent, with the ceiling.
    assert_eq!(fees.kalshi.taker_fee(ContractId(0), 60, 100), 84);
    assert_eq!(KalshiFees::default().taker_fee(ContractId(0), 60, 100), 168);
    // An absent multiplier is exactly 1, not 0.999-something.
    let plain = Config::parse("").unwrap().fee_models();
    assert_eq!(plain.kalshi.taker_fee(ContractId(0), 60, 100), 168);
}

#[test]
fn decimals_are_read_exactly() {
    let multiplier = |text: &str| {
        let file = format!("[venues.kalshi]\nfee_multiplier = {text}\n");
        Config::parse(&file).map(|c| c.venues.kalshi.fee_multiplier)
    };
    assert_eq!(multiplier("2"), Ok(Some(2000)));
    assert_eq!(multiplier("1.25"), Ok(Some(1250)));
    assert_eq!(multiplier("0.0714"), Ok(Some(71)));
    assert_eq!(multiplier("0.0715"), Ok(Some(72)));
    assert_eq!(multiplier("-0.0"), Ok(Some(0)));
    assert_eq!(multiplier("1e30"), Ok(Some(i64::MAX)));
    for bad in ["-0.5", "-1", "inf", "nan"] {
        assert_eq!(
            multiplier(bad),
            Err("venues.kalshi.fee_multiplier must be a non-negative number".to_string())
        );
    }
    let floor = |text: &str| {
        let file = format!("[engine]\nmin_annualized_return = {text}\n");
        Config::parse(&file).map(|c| c.engine.min_annualized_return)
    };
    assert_eq!(floor("0.15"), Ok(Ratio { numer: 15, denom: 100 }));
    assert_eq!(floor("2"), Ok(Ratio { numer: 2, denom: 1 }));
    assert_eq!(
        floor("-0.1"),
        Err("engine.min_annualized_return must be a non-negative number".to_string())
    );
    // What is too fine to hold is dropped, and what is too large is the largest.
    assert_eq!(floor("1e40"), Ok(Ratio { numer: u64::MAX, denom: 1 }));
    assert_eq!(
        floor("1e-30"),
        Ok(Ratio { numer: 0, denom: 10_000_000_000_000_000_000 })
    );
    assert_eq!(
        floor("1.25e-18"),
        Ok(Ratio { numer: 12, denom: 10_000_000_000_000_000_000 })
    );
    assert_eq!(
        floor("3.0000000000000004"),
        Ok(Ratio { numer: 30_000_000_000_000_004, denom: 10_000_000_000_000_000 })
    );
    assert!(floor("\"high\"").is_err());
}

#[test]
fn every_table_is_read() {
    let file = "
[engine]
max_book_age_ms = 250
min_net_edge_cents = 2
max_position_size = 40
[venues.kalshi]
enabled = true
metadata_url = \"https://example.test/v2\"
[venues.polymarket]
enabled = true
cache_dir = \"cache/poly\"
[registry]
path = \"r.toml\"
[recorder]
enabled = false
output_dir = \"out\"
compress = false
[risk]
max_per_event_cents = 1
max_per_theme_cents = 2
max_concurrent_trades = 3
max_daily_loss_cents = 4
starting_capital_cents = 5
[executor]
paper_mode = false
atomic_timeout_ms = 6
max_idle_ms = 7
[discovery]
enabled = false
cache_dir = \"c\"
cache_max_age_secs = 8
auto_discover_on_startup = true
status = \"\"
series = \"KXBTCD\"
max_pages = 9
allow_inferred_live_orders = true
";
    let config = Config::parse(file).unwrap();
    assert_eq!(config.engine.max_book_age_ms, 250);
    assert_eq!(config.engine.min_net_edge_cents, 2);
    assert_eq!(config.engine.max_position_size, 40);
    assert_eq!(
        config.venues.kalshi.metadata_url.as_deref(),
        Some("https://example.test/v2")
    );
    assert_eq!(config.venues.polymarket.cache_dir.as_deref(), Some("cache/poly"));
    assert!(config.venues.polymarket.enabled);
    assert_eq!(config.registry.path, "r.toml");
    assert!(!config.recorder.enabled && !config.recorder.compress);
    assert_eq!(config.recorder.output_dir, "out");
    assert_eq!(config.risk.max_concurrent_trades, 3);
    assert_eq!(config.risk.starting_capital_cents, 5);
    assert!(!config.executor.paper_mode);
    assert_eq!(config.executor.max_idle_ms, 7);
    assert!(config.discovery.auto_discover_on_startup);
    assert_eq!(config.discovery.series, "KXBTCD");
    assert_eq!(config.discovery.status, "");
    assert_eq!(config.discovery.max_pages, 9);
    // A venue that is written without saying so is disabled.
    let quiet = Config::parse("[venues.kalshi]\n").unwrap();
    assert!(!quiet.venues.kalshi.enabled);
    assert!(Config::parse("[executor]\npaper_mode = 1\n").is_err());
    assert!(Config::parse("[discovery]\nmax_pages = -1\n").is_err());
    assert!(Config::parse("executor = 3\n").is_err());
    assert!(Config::parse("not toml").is_err());
}

#[test]
fn every_mistake_is_named() {
    let named = |spoil: fn(&mut Config)| {
        let mut config = Config::default();
        spoil(&mut config);
        config.validate().unwrap_err()
    };
    assert_eq!(
        named(|c| c.engine.max_position_size = 0),
        "engine.max_position_size must be positive"
    );
    assert_eq!(
        named(|c| c.engine.min_net_edge_cents = 0),
        "engine.min_net_edge_cents must be positive; a zero-edge trade is not a trade"
    );
    assert_eq!(
        named(|c| c.engine.min_annualized_return = Ratio { numer: 1, denom: 0 }),
        "engine.min_annualized_return must be a non-negative number"
    );
    assert_eq!(
        named(|c| c.risk.max_daily_loss_cents = 0),
        "risk.max_daily_loss_cents must be positive"
    );
    assert_eq!(
        named(|c| c.risk.max_concurrent_trades = 0),
        "risk.max_concurrent_trades must be positive"
    );
    assert_eq!(
        named(|c| c.discovery.max_pages = 0),
        "discovery.max_pages must be positive"
    );
    assert_eq!(
        named(|c| c.venues.polymarket.fee_multiplier = Some(-1)),
        "venues.polymarket.fee_multiplier must be a non-negative number"
    );
}

#[test]
fn settings_carry_over_to_what_they_set() {
    let mut settings = DiscoverySettings::default();
    assert_eq!(settings.scope().status, "open");
    assert_eq!(settings.scope().series, None);
    settings.series = "KXBTCD".into();
    settings.max_pages = 0;
    assert_eq!(settings.scope().series.as_deref(), Some("KXBTCD"));
    assert_eq!(settings.scope().max_pages, 1);
    assert_eq!(RiskSettings::default().limits(), RiskLimits::default());
    assert!(!VenueSettings::default().enabled);
}
