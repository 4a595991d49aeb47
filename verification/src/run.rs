//! What a run is allowed to do, decided before anything is connected.
//!
//! The one rule that matters most lives here: real orders need the flag, a live
//! feed, production, and a configuration that does not simulate, all four.
use vstd::prelude::*;
use crate::config::Config;
use crate::discovery::validation::DiscoveryValidation;
use crate::engine::EngineConfig;
use crate::risk::RiskLimits;
use crate::text;
use crate::types::Cents;

pub mod laws;

verus! {

/// Everything `scan` and `trade` share. They are the same loop; `trade` just
/// exposes the capital and risk knobs and the live-order opt-in.
#[derive(Clone, Copy, Debug, PartialEq, Eq, Structural)]
pub struct RunArgs {
    /// Stream from the venue.
    pub live: bool,
    /// Drive a recorded session.
    pub replay: bool,
    pub prod: bool,
    pub capital: Option<Cents>,
    pub daily_loss_limit: Option<Cents>,
    pub max_per_event: Option<Cents>,
    pub max_per_theme: Option<Cents>,
    pub live_orders: bool,
    pub auto_discover: bool,
}

/// Where the registry comes from.
#[derive(Clone, Copy, Debug, PartialEq, Eq, Structural)]
pub enum Source {
    File,
    Venue,
}

/// Where a run takes its registry from, or why it does not start.
pub open spec fn sourced(args: RunArgs, config: Config, path: Seq<char>) -> Result<
    Source,
    Seq<char>,
> {
    if args.live == args.replay {
        Err("pass exactly one of --live or --replay <FILE>"@)
    } else if args.auto_discover || config.discovery.auto_discover_on_startup {
        if config.discovery.enabled {
            Ok(Source::Venue)
        } else {
            Err("--auto-discover needs discovery.enabled = true in "@ + path)
        }
    } else {
        Ok(Source::File)
    }
}

/// Where a run takes its registry from.
pub fn source(args: &RunArgs, config: &Config, path: &str) -> (result: Result<Source, String>)
    ensures
        match result {
            Ok(source) => sourced(*args, *config, path@) == Ok::<Source, Seq<char>>(source),
            Err(reason) => sourced(*args, *config, path@) == Err::<Source, Seq<char>>(reason@),
        },
{
    if args.live == args.replay {
        return Err("pass exactly one of --live or --replay <FILE>".to_owned());
    }
    if args.auto_discover || config.discovery.auto_discover_on_startup {
        if config.discovery.enabled {
            return Ok(Source::Venue);
        }
        let mut out: String = "--auto-discover needs discovery.enabled = true in ".to_owned();
        out.append(path);
        return Err(out);
    }
    Ok(Source::File)
}

/// Whether a run reads Polymarket's catalogue.
pub fn reads_polymarket(args: &RunArgs, config: &Config) -> (yes: bool)
    ensures
        yes == (args.live && config.venues.polymarket.enabled),
{
    args.live && config.venues.polymarket.enabled
}

/// What a run does.
#[derive(Clone, Copy, Debug, PartialEq, Eq, Structural)]
pub struct Plan {
    pub starting_capital: Cents,
    pub daily_loss_limit: Cents,
    pub engine: EngineConfig,
}

/// A value where one is given, else what stands in for it.
pub open spec fn given(value: Option<Cents>, otherwise: Cents) -> Cents {
    match value {
        Some(value) => value,
        None => otherwise,
    }
}

/// Why a run does not start.
pub open spec fn refusal(args: RunArgs, config: Config, path: Seq<char>, contracts: nat) -> Option<
    Seq<char>,
> {
    if contracts == 0 {
        Some("registry defines no Kalshi contracts"@)
    } else if given(args.capital, config.risk.starting_capital_cents) <= 0 {
        Some("--capital must be positive"@)
    } else if given(args.daily_loss_limit, config.risk.max_daily_loss_cents) <= 0 {
        Some("--daily-loss-limit must be positive"@)
    } else if args.live_orders && !args.live {
        Some("--live-orders needs --live; a recording cannot place orders"@)
    } else if args.live_orders && !args.prod {
        Some("--live-orders needs --prod"@)
    } else if args.live_orders && config.executor.paper_mode {
        Some("--live-orders needs executor.paper_mode = false in "@ + path)
    } else {
        None
    }
}

/// What a run does that does start.
pub open spec fn planned(args: RunArgs, config: Config) -> Plan {
    Plan {
        starting_capital: given(args.capital, config.risk.starting_capital_cents),
        daily_loss_limit: given(args.daily_loss_limit, config.risk.max_daily_loss_cents),
        engine: EngineConfig {
            solver: config.engine,
            risk: RiskLimits {
                max_per_event_cents: given(args.max_per_event, config.risk.max_per_event_cents),
                max_per_theme_cents: given(args.max_per_theme, config.risk.max_per_theme_cents),
                max_concurrent_trades: config.risk.max_concurrent_trades,
            },
            max_idle_ms: config.executor.max_idle_ms,
            atomic_timeout_ms: config.executor.atomic_timeout_ms,
            allow_live_orders: args.live_orders && !config.executor.paper_mode,
            allow_inferred_live_orders: config.discovery.allow_inferred_live_orders,
        },
    }
}

fn or(value: Option<Cents>, otherwise: Cents) -> (out: Cents)
    ensures
        out == given(value, otherwise),
{
    match value {
        Some(value) => value,
        None => otherwise,
    }
}

/// What a run does, given how many Kalshi contracts its registry holds.
pub fn plan(args: &RunArgs, config: &Config, path: &str, contracts: usize) -> (result: Result<
    Plan,
    String,
>)
    ensures
        match result {
            Ok(plan) => refusal(*args, *config, path@, contracts as nat) is None && plan == planned(
                *args,
                *config,
            ),
            Err(reason) => refusal(*args, *config, path@, contracts as nat) == Some(reason@),
        },
{
    if contracts == 0 {
        return Err("registry defines no Kalshi contracts".to_owned());
    }
    let starting_capital: Cents = or(args.capital, config.risk.starting_capital_cents);
    let daily_loss_limit: Cents = or(args.daily_loss_limit, config.risk.max_daily_loss_cents);
    if starting_capital <= 0 {
        return Err("--capital must be positive".to_owned());
    }
    if daily_loss_limit <= 0 {
        return Err("--daily-loss-limit must be positive".to_owned());
    }
    if args.live_orders {
        if !args.live {
            return Err("--live-orders needs --live; a recording cannot place orders".to_owned());
        }
        if !args.prod {
            return Err("--live-orders needs --prod".to_owned());
        }
        if config.executor.paper_mode {
            let mut out: String =
                "--live-orders needs executor.paper_mode = false in ".to_owned();
            out.append(path);
            return Err(out);
        }
    }
    let limits: RiskLimits = config.risk.limits();
    Ok(
        Plan {
            starting_capital,
            daily_loss_limit,
            engine: EngineConfig {
                solver: config.engine,
                risk: RiskLimits {
                    max_per_event_cents: or(args.max_per_event, limits.max_per_event_cents),
                    max_per_theme_cents: or(args.max_per_theme, limits.max_per_theme_cents),
                    max_concurrent_trades: limits.max_concurrent_trades,
                },
                max_idle_ms: config.executor.max_idle_ms,
                atomic_timeout_ms: config.executor.atomic_timeout_ms,
                allow_live_orders: args.live_orders && !config.executor.paper_mode,
                allow_inferred_live_orders: config.discovery.allow_inferred_live_orders,
            },
        },
    )
}

/// Real orders are placed by no run but one that asks for them, streams from the
/// venue, runs against production, and is configured not to simulate.
pub proof fn real_money_needs_everything(
    args: RunArgs,
    config: Config,
    path: Seq<char>,
    contracts: nat,
)
    requires
        refusal(args, config, path, contracts) is None,
        planned(args, config).engine.allow_live_orders,
    ensures
        args.live_orders,
        args.live,
        args.prod,
        !config.executor.paper_mode,
{
}

// ---------------------------------------------------------------------------
// Series
// ---------------------------------------------------------------------------

/// What stands before the first hyphen of a ticker.
pub open spec fn series_prefix(ticker: Seq<char>) -> Seq<char> {
    ticker.subrange(0, text::first_index(ticker, '-'))
}

/// Texts in order, each once.
pub open spec fn distinct_sorted(texts: Seq<Seq<char>>) -> bool {
    forall|i: int, j: int|
        0 <= i < j < texts.len() ==> text::precedes(#[trigger] texts[i], #[trigger] texts[j])
}

/// Distinct Kalshi series prefixes, the unit its discovery endpoints take.
pub fn series_of(tickers: &[String]) -> (series: Vec<String>)
    ensures
        distinct_sorted(text::views(series@)),
        text::views(series@).to_set() == text::views(tickers@).map_values(
            |t: Seq<char>| series_prefix(t),
        ).to_set(),
{
    let ghost all = text::views(tickers@);
    let ghost wanted = all.map_values(|t: Seq<char>| series_prefix(t));
    let mut series: Vec<String> = Vec::new();
    let mut i: usize = 0;
    assert(wanted.subrange(0, 0).to_set() =~= Set::<Seq<char>>::empty());
    assert(text::views(series@).to_set() =~= Set::<Seq<char>>::empty());
    while i < tickers.len()
        invariant
            i <= tickers@.len(),
            all == text::views(tickers@),
            wanted == all.map_values(|t: Seq<char>| series_prefix(t)),
            distinct_sorted(text::views(series@)),
            text::views(series@).to_set() == wanted.subrange(0, i as int).to_set(),
        decreases tickers@.len() - i,
    {
        let letters: Vec<char> = text::chars(tickers[i].as_str());
        let end: usize = text::find(letters.as_slice(), '-');
        let prefix: String = text::collect(
            vstd::slice::slice_subrange(letters.as_slice(), 0, end),
        );
        proof {
            text::lemma_first_index(letters@, '-');
            assert(prefix@ == wanted[i as int]);
            let next = wanted.subrange(0, i + 1);
            assert(next =~= wanted.subrange(0, i as int).push(prefix@));
            assert(next.to_set() =~= wanted.subrange(0, i as int).to_set().insert(prefix@)) by {
                let done = wanted.subrange(0, i as int);
                assert forall|x: Seq<char>| #[trigger] next.to_set().contains(x)
                    == done.to_set().insert(prefix@).contains(x) by {
                    if next.contains(x) {
                        let k = choose|k: int| 0 <= k < next.len() && next[k] == x;
                        if k < done.len() {
                            assert(done[k] == x);
                        }
                    }
                    if done.contains(x) {
                        let k = choose|k: int| 0 <= k < done.len() && done[k] == x;
                        assert(next[k] == x);
                    }
                    assert(next[i as int] == prefix@);
                }
            }
        }
        keep(&mut series, prefix);
        i = i + 1;
    }
    assert(wanted.subrange(0, wanted.len() as int) =~= wanted);
    series
}

/// Put a text in its place, unless it stands there already.
fn keep(series: &mut Vec<String>, text: String)
    requires
        distinct_sorted(text::views(old(series)@)),
    ensures
        distinct_sorted(text::views(final(series)@)),
        text::views(final(series)@).to_set() == text::views(old(series)@).to_set().insert(text@),
{
    let ghost before = text::views(series@);
    let mut at: usize = series.len();
    while at > 0 && text::str_less(text.as_str(), series[at - 1].as_str())
        invariant
            at <= series@.len(),
            before == text::views(series@),
            forall|k: int| at <= k < before.len() ==> text::precedes(text@, #[trigger] before[k]),
        decreases at,
    {
        assert(before[at - 1] == series@[at - 1]@);
        at = at - 1;
    }
    if at > 0 && text::same(series[at - 1].as_str(), text.as_str()) {
        proof {
            assert(before[at - 1] == text@);
            assert(before.to_set() =~= before.to_set().insert(text@));
        }
        return;
    }
    let ghost said = text@;
    proof {
        if at > 0 {
            assert(before[at - 1] == series@[at - 1]@);
            text::lemma_precedes_total(before[at - 1], said);
        }
    }
    series.insert(at, text);
    proof {
        let after = text::views(series@);
        assert(after =~= before.insert(at as int, said));
        assert forall|i: int, j: int| 0 <= i < j < after.len() implies text::precedes(
            #[trigger] after[i],
            #[trigger] after[j],
        ) by {
            if i == at {
                assert(after[j] == before[j - 1]);
            } else if j == at {
                assert(after[i] == before[i]);
                if i < at - 1 {
                    text::lemma_precedes_transitive(before[i], before[at - 1], said);
                }
            } else {
                let a = if i < at { i } else { i - 1 };
                let b = if j < at { j } else { j - 1 };
                assert(after[i] == before[a] && after[j] == before[b]);
            }
        }
        assert(after.to_set() =~= before.to_set().insert(said)) by {
            assert forall|x: Seq<char>| #[trigger] after.to_set().contains(x)
                == before.to_set().insert(said).contains(x) by {
                if after.contains(x) {
                    let k = choose|k: int| 0 <= k < after.len() && after[k] == x;
                    if k < at {
                        assert(before[k] == x);
                    } else if k > at {
                        assert(before[k - 1] == x);
                    }
                }
                if before.contains(x) {
                    let k = choose|k: int| 0 <= k < before.len() && before[k] == x;
                    if k < at {
                        assert(after[k] == x);
                    } else {
                        assert(after[k + 1] == x);
                    }
                }
                assert(after[at as int] == said);
            }
        }
    }
}

// ---------------------------------------------------------------------------
// Validation errors
// ---------------------------------------------------------------------------

/// Texts with a separator between them.
pub open spec fn listed(texts: Seq<Seq<char>>) -> Seq<char>
    decreases texts.len(),
{
    if texts.len() == 0 {
        Seq::empty()
    } else if texts.len() == 1 {
        texts[0]
    } else {
        listed(texts.drop_last()) + "; "@ + texts.last()
    }
}

/// The first of some texts.
pub open spec fn first_of(texts: Seq<Seq<char>>, n: int) -> Seq<Seq<char>> {
    if texts.len() > n {
        texts.subrange(0, n)
    } else {
        texts
    }
}

/// The first few things that are wrong with a discovered universe.
pub fn render_discovery_validation_errors(validation: &DiscoveryValidation) -> (out: String)
    ensures
        out@ == listed(
            first_of(
                text::views(validation.structural_errors@) + text::views(
                    validation.closed_markets@,
                ) + text::views(validation.ladder_errors@),
                8,
            ),
        ),
{
    let ghost a = text::views(validation.structural_errors@);
    let ghost b = text::views(validation.closed_markets@);
    let ghost c = text::views(validation.ladder_errors@);
    let ghost all = a + b + c;
    let x: usize = validation.structural_errors.len();
    let y: usize = validation.closed_markets.len();
    let z: usize = validation.ladder_errors.len();
    let mut out: String = "".to_owned();
    let mut taken: usize = 0;
    proof {
        reveal_strlit("");
        assert(all.subrange(0, 0) =~= Seq::<Seq<char>>::empty());
        assert(out@ =~= Seq::<char>::empty());
    }
    let mut i: usize = 0;
    while i < x && taken < 8
        invariant
            i <= x,
            taken <= 8,
            taken == i,
            x == validation.structural_errors@.len(),
            a == text::views(validation.structural_errors@),
            all == a + b + c,
            out@ == listed(all.subrange(0, taken as int)),
        decreases x - i,
    {
        assert(all[taken as int] == a[i as int]);
        append_next(&mut out, taken, validation.structural_errors[i].as_str(), Ghost(all));
        taken = taken + 1;
        i = i + 1;
    }
    let mut j: usize = 0;
    while j < y && taken < 8
        invariant
            j <= y,
            taken <= 8,
            taken < 8 ==> taken == x + j,
            x == a.len(),
            y == validation.closed_markets@.len(),
            b == text::views(validation.closed_markets@),
            all == a + b + c,
            taken <= all.len(),
            out@ == listed(all.subrange(0, taken as int)),
        decreases y - j,
    {
        assert(all[taken as int] == b[j as int]);
        append_next(&mut out, taken, validation.closed_markets[j].as_str(), Ghost(all));
        taken = taken + 1;
        j = j + 1;
    }
    let mut k: usize = 0;
    while k < z && taken < 8
        invariant
            k <= z,
            taken <= 8,
            taken < 8 ==> taken == x + y + k,
            x == a.len(),
            y == b.len(),
            z == validation.ladder_errors@.len(),
            c == text::views(validation.ladder_errors@),
            all == a + b + c,
            taken <= all.len(),
            out@ == listed(all.subrange(0, taken as int)),
        decreases z - k,
    {
        assert(all[taken as int] == c[k as int]);
        append_next(&mut out, taken, validation.ladder_errors[k].as_str(), Ghost(all));
        taken = taken + 1;
        k = k + 1;
    }
    assert(taken < 8 ==> taken == all.len());
    assert(all.subrange(0, all.len() as int) =~= all);
    out
}

/// Add the next text of a list.
fn append_next(out: &mut String, taken: usize, text: &str, Ghost(all): Ghost<Seq<Seq<char>>>)
    requires
        taken < all.len(),
        all[taken as int] == text@,
        old(out)@ == listed(all.subrange(0, taken as int)),
    ensures
        final(out)@ == listed(all.subrange(0, taken + 1)),
{
    let ghost next = all.subrange(0, taken + 1);
    assert(next.drop_last() =~= all.subrange(0, taken as int));
    if taken > 0 {
        out.append("; ");
        out.append(text);
    } else {
        out.append(text);
        assert(out@ =~= text@);
    }
}

} // verus!
