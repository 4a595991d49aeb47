//! Which configurations are sound.
use vstd::prelude::*;
use crate::config;
use crate::config::ConfigView;

verus! {

/// A configuration is sound exactly where it can size a trade, wants an edge,
/// has money and room to lose some, may hold a trade, reads a page, waits for an
/// answer, and is charged no less than nothing.
pub proof fn a_sound_configuration_can_trade(config: ConfigView)
    ensures
        config::fault(config) is None <==> {
            &&& config.engine.max_position_size > 0
            &&& config.engine.min_net_edge_cents > 0
            &&& config.engine.min_annualized_return.denom > 0
            &&& config.risk.starting_capital_cents > 0
            &&& config.risk.max_daily_loss_cents > 0
            &&& config.risk.max_concurrent_trades > 0
            &&& config.discovery.max_pages > 0
            &&& config.executor.atomic_timeout_ms > 0
            &&& config.kalshi.fee_multiplier is None || config.kalshi.fee_multiplier->0 >= 0
            &&& config.polymarket.fee_multiplier is None || config.polymarket.fee_multiplier->0
                >= 0
        },
{
}

} // verus!
