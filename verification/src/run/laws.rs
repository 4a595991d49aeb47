//! What a run is set up with.
use vstd::prelude::*;
use crate::config::Config;
use crate::run;
use crate::run::{RunArgs, Source};

verus! {

/// A run takes its markets from where it is told to, by the flag or by the
/// configuration, and runs on one feed: live or recorded.
pub proof fn a_run_has_one_feed_and_one_source(args: RunArgs, config: Config, path: Seq<char>)
    ensures
        ({
            let asked = args.auto_discover || config.discovery.auto_discover_on_startup;
            match run::sourced(args, config, path) {
                Ok(Source::Venue) => args.live != args.replay && asked && config.discovery.enabled,
                Ok(Source::File) => args.live != args.replay && !asked,
                Err(_) => args.live == args.replay || (asked && !config.discovery.enabled),
            }
        }),
{
}

/// A run is refused exactly where it has nothing to trade, no money, no room to
/// lose any, or asks for real orders without everything that they need.
pub proof fn a_run_is_refused_for_cause(
    args: RunArgs,
    config: Config,
    path: Seq<char>,
    contracts: nat,
)
    ensures
        ({
            let money = match args.capital {
                Some(cents) => cents > 0,
                None => config.risk.starting_capital_cents > 0,
            };
            let room = match args.daily_loss_limit {
                Some(cents) => cents > 0,
                None => config.risk.max_daily_loss_cents > 0,
            };
            let armed = args.live && args.prod && !config.executor.paper_mode;
            run::refusal(args, config, path, contracts) is None <==> contracts > 0 && money && room
                && (args.live_orders ==> armed)
        }),
{
}

/// What is given on the command line goes before what is configured, field by
/// field, and the rest is as configured.
pub proof fn the_command_line_goes_first(args: RunArgs, config: Config)
    ensures
        ({
            let plan = run::planned(args, config);
            &&& args.capital matches Some(cents) ==> plan.starting_capital == cents
            &&& args.capital is None ==> plan.starting_capital
                == config.risk.starting_capital_cents
            &&& args.daily_loss_limit matches Some(cents) ==> plan.daily_loss_limit == cents
            &&& args.daily_loss_limit is None ==> plan.daily_loss_limit
                == config.risk.max_daily_loss_cents
            &&& args.max_per_event matches Some(cents) ==> plan.engine.risk.max_per_event_cents
                == cents
            &&& args.max_per_event is None ==> plan.engine.risk.max_per_event_cents
                == config.risk.max_per_event_cents
            &&& args.max_per_theme matches Some(cents) ==> plan.engine.risk.max_per_theme_cents
                == cents
            &&& args.max_per_theme is None ==> plan.engine.risk.max_per_theme_cents
                == config.risk.max_per_theme_cents
            &&& plan.engine.risk.max_concurrent_trades == config.risk.max_concurrent_trades
            &&& plan.engine.solver == config.engine
            &&& plan.engine.max_idle_ms == config.executor.max_idle_ms
            &&& plan.engine.atomic_timeout_ms == config.executor.atomic_timeout_ms
            &&& plan.engine.allow_live_orders <==> args.live_orders && !config.executor.paper_mode
            &&& plan.engine.allow_inferred_live_orders
                == config.discovery.allow_inferred_live_orders
        }),
{
}

} // verus!
