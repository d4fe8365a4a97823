//! Building the next persisted snapshot, and one full iteration of the
//! valuation loop.

use vstd::prelude::*;
use crate::decimal::Dec;
use crate::engine::{evaluate, report_matches, ValuationReport};
use crate::model::{Configuration, Portfolio, PriceMap};

verus! {

/// Assemble the configuration to persist after a run: the credentials and
/// the portfolio pass through unchanged, the price snapshot is replaced
/// wholesale by the live prices, and the timestamp is the given instant.
pub fn build_snapshot(
    app_id: String,
    fx_app_id: String,
    portfolio: Portfolio,
    prices: PriceMap,
    now: u64,
) -> (r: Configuration)
    ensures
        r.app_id == app_id,
        r.fx_app_id == fx_app_id,
        r.portfolio == portfolio,
        r.prices == prices,
        r.timestamp == now,
{
    Configuration { app_id, fx_app_id, timestamp: now, portfolio, prices }
}

/// One iteration of the valuation loop: value the portfolio against the
/// live prices, and decide what to persist — the snapshot built from the
/// live prices, or nothing on a dry run.
pub fn run_iteration(config: &Configuration, live: PriceMap, rate: Dec, now: u64, dry_run: bool) -> (r: (
    ValuationReport,
    Option<Configuration>,
))
    requires
        config.wf(),
        live.wf(),
        rate.wf(),
        crate::engine::eval_fits(
            config.portfolio.positions@,
            config.prices.as_map(),
            live.as_map(),
            rate.v(),
        ),
    ensures
        report_matches(r.0, *config, live.as_map(), rate.v(), now),
        dry_run ==> r.1 is None,
        !dry_run ==> (r.1 matches Some(c) && {
            &&& c.app_id@ == config.app_id@
            &&& c.fx_app_id@ == config.fx_app_id@
            &&& c.portfolio.positions@ == config.portfolio.positions@
            &&& c.prices == live
            &&& c.timestamp == now
            &&& c.wf()
        }),
{
    let report = evaluate(config, &live, rate, now);
    if dry_run {
        (report, None)
    } else {
        let app_id = clone_string(&config.app_id);
        let fx_app_id = clone_string(&config.fx_app_id);
        let portfolio = clone_portfolio(&config.portfolio);
        let next = build_snapshot(app_id, fx_app_id, portfolio, live, now);
        (report, Some(next))
    }
}

/// Clone a string, keeping its view.
fn clone_string(s: &String) -> (r: String)
    ensures
        r@ == s@,
{
    s.clone()
}

/// Clone a portfolio, keeping its positions.
fn clone_portfolio(p: &Portfolio) -> (r: Portfolio)
    requires
        p.wf(),
    ensures
        r.positions@ == p.positions@,
{
    let n = p.positions.len();
    let mut positions: Vec<crate::model::Position> = Vec::new();
    let mut i: usize = 0;
    while i < n
        invariant
            n == p.positions@.len(),
            0 <= i <= n,
            positions@.len() == i,
            forall|k: int| 0 <= k < i ==> positions@[k] == p.positions@[k],
        decreases n - i,
    {
        let q = &p.positions[i];
        let position = crate::model::Position { currency: q.currency.clone(), holding: q.holding };
        proof {
            assert(position.currency@ == p.positions@[i as int].currency@);
        }
        positions.push(position);
        i = i + 1;
    }
    proof {
        assert(positions@ =~= p.positions@);
    }
    Portfolio { positions }
}

} // verus!
