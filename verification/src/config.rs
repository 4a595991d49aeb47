//! Engine configuration: what a run may be told, what it does when it is told
//! nothing, and what it refuses.
//!
//! Malformed configuration is a startup error, never a runtime surprise: a
//! silently accepted `max_position_size` of zero is the kind of mistake that
//! only surfaces as an engine that never trades. [`file`] reads it.
use vstd::prelude::*;
use crate::discovery::cache::{DiscoveryScope, ScopeView};
use crate::exec::atomic::DEFAULT_TIMEOUT_MS;
use crate::fees::{FeeCategory, FeeModels, KalshiFees, PolymarketFees};
use crate::health::DEFAULT_MAX_IDLE_MS;
use crate::risk::RiskLimits;
use crate::solver::types::SolverConfig;
use crate::text;
use crate::types::{Cents, Ratio};

pub mod file;
pub mod laws;

verus! {

#[derive(Clone, Debug)]
pub struct Config {
    pub engine: SolverConfig,
    pub venues: Venues,
    pub registry: RegistrySettings,
    pub recorder: RecorderSettings,
    pub risk: RiskSettings,
    pub executor: ExecutorSettings,
    pub discovery: DiscoverySettings,
}

#[derive(Clone, Debug)]
pub struct DiscoverySettings {
    pub enabled: bool,
    pub cache_dir: String,
    pub cache_max_age_secs: u64,
    /// Build the registry from venue metadata at startup instead of from the
    /// registry file.
    pub auto_discover_on_startup: bool,
    /// Venue status filter. Empty takes every market the venue lists.
    pub status: String,
    /// One series, such as `KXBTCD`. Empty walks the whole venue, which on
    /// Kalshi is over twelve thousand open markets across ten thousand events.
    pub series: String,
    pub max_pages: usize,
    /// Whether an inferred group may be traded with a live order client. False
    /// means discovery can find and price opportunities but a human must
    /// promote the group before real money follows.
    pub allow_inferred_live_orders: bool,
}

impl Default for DiscoverySettings {
    fn default() -> (settings: Self)
        ensures
            settings.enabled,
            settings.cache_dir@ == ".cache/kalshi"@,
            settings.cache_max_age_secs == 3_600,
            !settings.auto_discover_on_startup,
            settings.status@ == "open"@,
            settings.series@ == ""@,
            settings.max_pages == 100,
            !settings.allow_inferred_live_orders,
    {
        DiscoverySettings {
            enabled: true,
            cache_dir: ".cache/kalshi".to_owned(),
            cache_max_age_secs: 3_600,
            auto_discover_on_startup: false,
            status: "open".to_owned(),
            series: "".to_owned(),
            max_pages: 100,
            allow_inferred_live_orders: false,
        }
    }
}

impl DiscoverySettings {
    /// How much of the venue these settings take.
    pub open spec fn scoped(&self) -> ScopeView {
        ScopeView {
            status: self.status@,
            series: if self.series@.len() == 0 {
                None
            } else {
                Some(self.series@)
            },
            max_pages: if self.max_pages < 1 {
                1
            } else {
                self.max_pages
            },
        }
    }

    pub fn scope(&self) -> (scope: DiscoveryScope)
        ensures
            scope@ == self.scoped(),
    {
        DiscoveryScope {
            status: self.status.as_str().to_owned(),
            series: if self.series.as_str().unicode_len() == 0 {
                None
            } else {
                Some(self.series.as_str().to_owned())
            },
            max_pages: if self.max_pages < 1 {
                1
            } else {
                self.max_pages
            },
        }
    }
}

#[derive(Clone, Copy, Debug, PartialEq, Eq, Structural)]
pub struct RiskSettings {
    pub max_per_event_cents: Cents,
    pub max_per_theme_cents: Cents,
    pub max_concurrent_trades: usize,
    /// Realized loss that closes the day. Lives here rather than on
    /// [`RiskLimits`] because the portfolio, not the risk check, is what tracks
    /// and resets it.
    pub max_daily_loss_cents: Cents,
    /// Capital the engine starts with.
    pub starting_capital_cents: Cents,
}

impl Default for RiskSettings {
    fn default() -> (settings: Self)
        ensures
            settings == (RiskSettings {
                max_per_event_cents: 50_000,
                max_per_theme_cents: 100_000,
                max_concurrent_trades: 10,
                max_daily_loss_cents: 100_000,
                starting_capital_cents: 1_000_000,
            }),
    {
        let limits: RiskLimits = RiskLimits::default();
        RiskSettings {
            max_per_event_cents: limits.max_per_event_cents,
            max_per_theme_cents: limits.max_per_theme_cents,
            max_concurrent_trades: limits.max_concurrent_trades,
            max_daily_loss_cents: 100_000,
            starting_capital_cents: 1_000_000,
        }
    }
}

impl RiskSettings {
    pub open spec fn limited(self) -> RiskLimits {
        RiskLimits {
            max_per_event_cents: self.max_per_event_cents,
            max_per_theme_cents: self.max_per_theme_cents,
            max_concurrent_trades: self.max_concurrent_trades,
        }
    }

    pub fn limits(&self) -> (limits: RiskLimits)
        ensures
            limits == self.limited(),
    {
        RiskLimits {
            max_per_event_cents: self.max_per_event_cents,
            max_per_theme_cents: self.max_per_theme_cents,
            max_concurrent_trades: self.max_concurrent_trades,
        }
    }
}

#[derive(Clone, Copy, Debug, PartialEq, Eq, Structural)]
pub struct ExecutorSettings {
    /// True means simulate. The default is true and the CLI requires an
    /// explicit flag to change it, because the failure modes are not symmetric:
    /// an unintended paper run costs a rerun, an unintended live run costs money.
    pub paper_mode: bool,
    pub atomic_timeout_ms: u64,
    /// Idle time before the venue is treated as unreachable.
    pub max_idle_ms: u64,
}

impl Default for ExecutorSettings {
    fn default() -> (settings: Self)
        ensures
            settings == (ExecutorSettings {
                paper_mode: true,
                atomic_timeout_ms: DEFAULT_TIMEOUT_MS,
                max_idle_ms: DEFAULT_MAX_IDLE_MS,
            }),
    {
        ExecutorSettings {
            paper_mode: true,
            atomic_timeout_ms: DEFAULT_TIMEOUT_MS,
            max_idle_ms: DEFAULT_MAX_IDLE_MS,
        }
    }
}

#[derive(Clone, Debug)]
pub struct Venues {
    pub kalshi: VenueSettings,
    pub polymarket: VenueSettings,
}

impl Default for Venues {
    fn default() -> (venues: Self)
        ensures
            venues.kalshi == (VenueSettings {
                enabled: true,
                metadata_url: None,
                cache_dir: None,
                fee_multiplier: None,
            }),
            venues.polymarket == (VenueSettings {
                enabled: false,
                metadata_url: None,
                cache_dir: None,
                fee_multiplier: None,
            }),
    {
        let mut kalshi: VenueSettings = VenueSettings::default();
        kalshi.enabled = true;
        Venues { kalshi, polymarket: VenueSettings::default() }
    }
}

#[derive(Clone, Debug)]
pub struct VenueSettings {
    /// A disabled venue contributes no feed and no metadata lookups. Its
    /// registry members still load, so a group spanning it is visible and is
    /// skipped for a stated reason rather than silently missing.
    pub enabled: bool,
    pub metadata_url: Option<String>,
    pub cache_dir: Option<String>,
    /// Venue fee multiplier in thousandths, so the fee schedule stays integer
    /// arithmetic; this is an operator knob, not a price.
    pub fee_multiplier: Option<i64>,
}

impl Default for VenueSettings {
    fn default() -> (settings: Self)
        ensures
            settings == (VenueSettings {
                enabled: false,
                metadata_url: None,
                cache_dir: None,
                fee_multiplier: None,
            }),
    {
        VenueSettings { enabled: false, metadata_url: None, cache_dir: None, fee_multiplier: None }
    }
}

#[derive(Clone, Debug)]
pub struct RegistrySettings {
    pub path: String,
}

impl Default for RegistrySettings {
    fn default() -> (settings: Self)
        ensures
            settings.path@ == "config/registry.toml"@,
    {
        RegistrySettings { path: "config/registry.toml".to_owned() }
    }
}

#[derive(Clone, Debug)]
pub struct RecorderSettings {
    pub enabled: bool,
    pub output_dir: String,
    pub compress: bool,
}

impl Default for RecorderSettings {
    fn default() -> (settings: Self)
        ensures
            settings.enabled,
            settings.output_dir@ == "data"@,
            settings.compress,
    {
        RecorderSettings { enabled: true, output_dir: "data".to_owned(), compress: true }
    }
}

impl Default for Config {
    fn default() -> (config: Self)
        ensures
            call_ensures(SolverConfig::default, (), config.engine),
            call_ensures(Venues::default, (), config.venues),
            call_ensures(RegistrySettings::default, (), config.registry),
            call_ensures(RecorderSettings::default, (), config.recorder),
            call_ensures(RiskSettings::default, (), config.risk),
            call_ensures(ExecutorSettings::default, (), config.executor),
            call_ensures(DiscoverySettings::default, (), config.discovery),
    {
        Config {
            engine: SolverConfig::default(),
            venues: Venues::default(),
            registry: RegistrySettings::default(),
            recorder: RecorderSettings::default(),
            risk: RiskSettings::default(),
            executor: ExecutorSettings::default(),
            discovery: DiscoverySettings::default(),
        }
    }
}

/// What a [`Config`] says.
#[verifier::ext_equal]
pub struct ConfigView {
    pub engine: SolverConfig,
    pub kalshi: VenueView,
    pub polymarket: VenueView,
    pub registry_path: Seq<char>,
    pub recorder: RecorderView,
    pub risk: RiskSettings,
    pub executor: ExecutorSettings,
    pub discovery: DiscoveryView,
}

/// What [`VenueSettings`] say.
#[verifier::ext_equal]
pub struct VenueView {
    pub enabled: bool,
    pub metadata_url: Option<Seq<char>>,
    pub cache_dir: Option<Seq<char>>,
    pub fee_multiplier: Option<i64>,
}

/// What [`RecorderSettings`] say.
#[verifier::ext_equal]
pub struct RecorderView {
    pub enabled: bool,
    pub output_dir: Seq<char>,
    pub compress: bool,
}

/// What [`DiscoverySettings`] say.
#[verifier::ext_equal]
pub struct DiscoveryView {
    pub enabled: bool,
    pub cache_dir: Seq<char>,
    pub cache_max_age_secs: u64,
    pub auto_discover_on_startup: bool,
    pub status: Seq<char>,
    pub series: Seq<char>,
    pub max_pages: usize,
    pub allow_inferred_live_orders: bool,
}

impl View for VenueSettings {
    type V = VenueView;

    open spec fn view(&self) -> VenueView {
        VenueView {
            enabled: self.enabled,
            metadata_url: text::optional(self.metadata_url),
            cache_dir: text::optional(self.cache_dir),
            fee_multiplier: self.fee_multiplier,
        }
    }
}

impl View for RecorderSettings {
    type V = RecorderView;

    open spec fn view(&self) -> RecorderView {
        RecorderView {
            enabled: self.enabled,
            output_dir: self.output_dir@,
            compress: self.compress,
        }
    }
}

impl View for DiscoverySettings {
    type V = DiscoveryView;

    open spec fn view(&self) -> DiscoveryView {
        DiscoveryView {
            enabled: self.enabled,
            cache_dir: self.cache_dir@,
            cache_max_age_secs: self.cache_max_age_secs,
            auto_discover_on_startup: self.auto_discover_on_startup,
            status: self.status@,
            series: self.series@,
            max_pages: self.max_pages,
            allow_inferred_live_orders: self.allow_inferred_live_orders,
        }
    }
}

impl View for Config {
    type V = ConfigView;

    open spec fn view(&self) -> ConfigView {
        ConfigView {
            engine: self.engine,
            kalshi: self.venues.kalshi@,
            polymarket: self.venues.polymarket@,
            registry_path: self.registry.path@,
            recorder: self.recorder@,
            risk: self.risk,
            executor: self.executor,
            discovery: self.discovery@,
        }
    }
}

/// A multiplier that is set to less than nothing.
pub open spec fn is_negative(multiplier: Option<i64>) -> bool {
    multiplier matches Some(m) && m < 0
}

/// What is wrong with a configuration: the first of its mistakes.
pub open spec fn fault(config: ConfigView) -> Option<Seq<char>> {
    if config.engine.max_position_size <= 0 {
        Some("engine.max_position_size must be positive"@)
    } else if config.engine.min_net_edge_cents <= 0 {
        Some("engine.min_net_edge_cents must be positive; a zero-edge trade is not a trade"@)
    } else if config.engine.min_annualized_return.denom == 0 {
        Some("engine.min_annualized_return must be a non-negative number"@)
    } else if config.risk.starting_capital_cents <= 0 {
        Some("risk.starting_capital_cents must be positive"@)
    } else if config.risk.max_daily_loss_cents <= 0 {
        Some("risk.max_daily_loss_cents must be positive"@)
    } else if config.risk.max_concurrent_trades == 0 {
        Some("risk.max_concurrent_trades must be positive"@)
    } else if config.discovery.max_pages == 0 {
        Some("discovery.max_pages must be positive"@)
    } else if config.executor.atomic_timeout_ms == 0 {
        Some("executor.atomic_timeout_ms must be positive"@)
    } else if is_negative(config.kalshi.fee_multiplier) {
        Some("venues.kalshi.fee_multiplier must be a non-negative number"@)
    } else if is_negative(config.polymarket.fee_multiplier) {
        Some("venues.polymarket.fee_multiplier must be a non-negative number"@)
    } else {
        None
    }
}

fn negative(multiplier: Option<i64>) -> (yes: bool)
    ensures
        yes == is_negative(multiplier),
{
    match multiplier {
        Some(m) => m < 0,
        None => false,
    }
}

impl Config {
    /// Refuse a configuration that no run could mean.
    pub fn validate(&self) -> (result: Result<(), &'static str>)
        ensures
            match result {
                Ok(_) => fault(self@) is None,
                Err(reason) => fault(self@) == Some(reason@),
            },
    {
        if self.engine.max_position_size <= 0 {
            return Err("engine.max_position_size must be positive");
        }
        if self.engine.min_net_edge_cents <= 0 {
            return Err(
                "engine.min_net_edge_cents must be positive; a zero-edge trade is not a trade",
            );
        }
        if self.engine.min_annualized_return.denom == 0 {
            return Err("engine.min_annualized_return must be a non-negative number");
        }
        if self.risk.starting_capital_cents <= 0 {
            return Err("risk.starting_capital_cents must be positive");
        }
        if self.risk.max_daily_loss_cents <= 0 {
            return Err("risk.max_daily_loss_cents must be positive");
        }
        if self.risk.max_concurrent_trades == 0 {
            return Err("risk.max_concurrent_trades must be positive");
        }
        if self.discovery.max_pages == 0 {
            return Err("discovery.max_pages must be positive");
        }
        if self.executor.atomic_timeout_ms == 0 {
            return Err("executor.atomic_timeout_ms must be positive");
        }
        if negative(self.venues.kalshi.fee_multiplier) {
            return Err("venues.kalshi.fee_multiplier must be a non-negative number");
        }
        if negative(self.venues.polymarket.fee_multiplier) {
            return Err("venues.polymarket.fee_multiplier must be a non-negative number");
        }
        Ok(())
    }

    /// Fee schedules with each venue's configured multiplier applied.
    ///
    /// The multiplier is an exact rational with a denominator of 1000, so
    /// nothing downstream of here touches anything but integers in the money
    /// path. A multiplier finer than a thousandth is not expressible; that is a
    /// deliberate limit on an operator knob.
    pub fn fee_models(&self) -> (models: FeeModels)
        ensures
            models.kalshi == (KalshiFees {
                multiplier_numer: match self.venues.kalshi.fee_multiplier {
                    Some(thousandths) => thousandths,
                    None => 1000,
                },
                multiplier_denom: 1000,
            }),
            models.polymarket@ == Map::<u32, FeeCategory>::empty(),
    {
        let multiplier_numer: i64 = match self.venues.kalshi.fee_multiplier {
            Some(thousandths) => thousandths,
            None => 1000,
        };
        FeeModels {
            kalshi: KalshiFees { multiplier_numer, multiplier_denom: 1000 },
            polymarket: PolymarketFees::default(),
        }
    }
}

/// What a run does when it is told nothing is never refused, and it simulates.
pub proof fn the_defaults_are_sound_and_simulate(config: Config)
    requires
        config.engine == (SolverConfig {
            max_book_age_ms: 500,
            min_net_edge_cents: 1,
            min_annualized_return: Ratio { numer: 15, denom: 100 },
            max_position_size: 500,
        }),
        call_ensures(Venues::default, (), config.venues),
        call_ensures(RiskSettings::default, (), config.risk),
        call_ensures(ExecutorSettings::default, (), config.executor),
        call_ensures(DiscoverySettings::default, (), config.discovery),
    ensures
        fault(config@) is None,
        config.executor.paper_mode,
        !config.discovery.allow_inferred_live_orders,
{
}

} // verus!
