//! The valuation engine: per-position and aggregate value and change,
//! classified for presentation.
//!
//! All figures are stated over the price maps and the exchange rate. The
//! exchange rate is deliberately compounded: once into each price before
//! rounding to two places, once more into the price delta, and once more
//! into each position value — a quirk of the report format, kept for
//! output compatibility.

use vstd::prelude::*;
use crate::decimal::{Dec, rdiv, round2v, M_MAX, P9};
use crate::elapsed::{hhhmmss, hhhmmss_text};
use crate::model::{Configuration, Position, PriceMap};
use crate::percent::{percent_change, percent_change_v};

verus! {

/// Direction of a change between a prior and a current figure.
#[derive(Clone, Copy, PartialEq, Eq, Structural, Debug)]
pub enum Change {
    Up,
    Down,
    Unchanged,
}

/// How a move from `prior` to `current` is classified.
pub open spec fn spec_classify(prior: int, current: int) -> Change {
    if current > prior {
        Change::Up
    } else if current < prior {
        Change::Down
    } else {
        Change::Unchanged
    }
}

/// Classify the move from `prior` to `current`.
pub fn classify(prior: &Dec, current: &Dec) -> (r: Change)
    requires
        prior.wf(),
        current.wf(),
    ensures
        r == spec_classify(prior.v(), current.v()),
{
    if prior.lt(*current) {
        Change::Up
    } else if current.lt(*prior) {
        Change::Down
    } else {
        Change::Unchanged
    }
}

/// The terminal color naming a change: rising figures are green, falling
/// red, flat white.
pub fn change_color(prior: &Dec, current: &Dec) -> (r: String)
    requires
        prior.wf(),
        current.wf(),
    ensures
        spec_classify(prior.v(), current.v()) == Change::Up ==> r@ == "green"@,
        spec_classify(prior.v(), current.v()) == Change::Down ==> r@ == "red"@,
        spec_classify(prior.v(), current.v()) == Change::Unchanged ==> r@ == "white"@,
{
    match classify(prior, current) {
        Change::Up => "green".to_owned(),
        Change::Down => "red".to_owned(),
        Change::Unchanged => "white".to_owned(),
    }
}

/// Product of two decimal values (in `10^-9` units), rounded to the
/// nearest representable value.
pub open spec fn mulv(a: int, b: int) -> int {
    rdiv(a * b, P9 as int)
}

/// A price converted to the quote currency and rounded to two places:
/// this is the displayed price.
pub open spec fn quoted_price(usd: int, rate: int) -> int {
    round2v(mulv(usd, rate))
}

/// The displayed price delta: difference of the two displayed prices,
/// multiplied by the rate once more and rounded again.
pub open spec fn price_change_v(prior_usd: int, current_usd: int, rate: int) -> int {
    round2v(mulv(quoted_price(current_usd, rate) - quoted_price(prior_usd, rate), rate))
}

/// The monetary value of a position at one price: holding times displayed
/// price, times the rate once more.
pub open spec fn position_value_v(holding: int, usd: int, rate: int) -> int {
    mulv(mulv(holding, quoted_price(usd, rate)), rate)
}

/// The price a map gives for a ticker, or the zero sentinel when the map
/// does not know the ticker.
pub open spec fn price_or_zero(m: Map<Seq<char>, Dec>, k: Seq<char>) -> int {
    if m.contains_key(k) {
        m[k].v()
    } else {
        0
    }
}

/// The sum of the values of the first `n` positions, priced by `m`.
pub open spec fn total_value(
    positions: Seq<Position>,
    m: Map<Seq<char>, Dec>,
    rate: int,
    n: int,
) -> int
    decreases n,
{
    if n <= 0 {
        0
    } else {
        total_value(positions, m, rate, n - 1) + position_value_v(
            positions[n - 1].holding.v(),
            price_or_zero(m, positions[n - 1].currency@),
            rate,
        )
    }
}

/// Every intermediate figure of the valuation stays within the
/// representable range — the machine-limit precondition of the engine.
pub open spec fn eval_fits(
    positions: Seq<Position>,
    prior: Map<Seq<char>, Dec>,
    live: Map<Seq<char>, Dec>,
    rate: int,
) -> bool {
    &&& forall|i: int|
        0 <= i < positions.len() ==> {
            let h = (#[trigger] positions[i]).holding.v();
            let pu = price_or_zero(prior, positions[i].currency@);
            let cu = price_or_zero(live, positions[i].currency@);
            &&& -M_MAX <= mulv(pu, rate) <= M_MAX
            &&& -M_MAX <= mulv(cu, rate) <= M_MAX
            &&& -M_MAX <= quoted_price(cu, rate) - quoted_price(pu, rate) <= M_MAX
            &&& -M_MAX <= percent_change_v(quoted_price(pu, rate), quoted_price(cu, rate))
                <= M_MAX
            &&& -M_MAX <= mulv(quoted_price(cu, rate) - quoted_price(pu, rate), rate) <= M_MAX
            &&& -M_MAX <= mulv(h, quoted_price(pu, rate)) <= M_MAX
            &&& -M_MAX <= mulv(h, quoted_price(cu, rate)) <= M_MAX
            &&& -M_MAX <= position_value_v(h, pu, rate) <= M_MAX
            &&& -M_MAX <= position_value_v(h, cu, rate) <= M_MAX
            &&& -M_MAX <= position_value_v(h, cu, rate) - position_value_v(h, pu, rate) <= M_MAX
        }
    &&& forall|n: int|
        0 <= n <= positions.len() ==> {
            &&& -M_MAX <= #[trigger] total_value(positions, prior, rate, n) <= M_MAX
            &&& -M_MAX <= total_value(positions, live, rate, n) <= M_MAX
        }
    &&& -M_MAX <= total_value(positions, live, rate, positions.len() as int) - total_value(
        positions,
        prior,
        rate,
        positions.len() as int,
    ) <= M_MAX
}

/// One row of the valuation report.
pub struct PositionReport {
    /// Ticker of the position.
    pub currency: String,
    /// The held quantity, copied through for display.
    pub holding: Dec,
    /// Displayed current price (quoted and rounded).
    pub current_price: Dec,
    /// Displayed prior price (quoted and rounded).
    pub prior_price: Dec,
    /// Displayed price delta.
    pub price_change: Dec,
    /// Value of the position at the prior price.
    pub prior_value: Dec,
    /// Value of the position at the current price.
    pub current_value: Dec,
    /// Displayed value delta, rounded to two places.
    pub value_change: Dec,
    /// Secondary figure: signed percentage move of the displayed price.
    pub percent_change: Dec,
    /// Direction of the price move.
    pub change: Change,
    /// Whether the holding is positive; a watch-only row hides its
    /// holding and value columns.
    pub has_holding: bool,
}

/// The full valuation report: one row per position, in portfolio order,
/// the aggregate figures, and the formatted elapsed time.
pub struct ValuationReport {
    pub rows: Vec<PositionReport>,
    /// Sum of all position values at prior prices.
    pub prior_total: Dec,
    /// Sum of all position values at current prices.
    pub current_total: Dec,
    /// Displayed aggregate delta, rounded to two places.
    pub total_change: Dec,
    /// Direction of the aggregate move.
    pub change: Change,
    /// Seconds elapsed since the prior snapshot (zero on clock skew).
    pub elapsed_seconds: u64,
    /// The elapsed time as `HHH:MM:SS`.
    pub elapsed: String,
}

/// What one report row must say about position `p`, given the two price
/// maps and the exchange rate.
pub open spec fn row_matches(
    row: PositionReport,
    p: Position,
    prior: Map<Seq<char>, Dec>,
    live: Map<Seq<char>, Dec>,
    rate: int,
) -> bool {
    let h = p.holding.v();
    let pu = price_or_zero(prior, p.currency@);
    let cu = price_or_zero(live, p.currency@);
    &&& row.currency@ == p.currency@
    &&& row.holding == p.holding
    &&& row.current_price.wf() && row.current_price.v() == quoted_price(cu, rate)
    &&& row.prior_price.wf() && row.prior_price.v() == quoted_price(pu, rate)
    &&& row.price_change.wf() && row.price_change.v() == price_change_v(pu, cu, rate)
    &&& row.prior_value.wf() && row.prior_value.v() == position_value_v(h, pu, rate)
    &&& row.current_value.wf() && row.current_value.v() == position_value_v(h, cu, rate)
    &&& row.value_change.wf() && row.value_change.v() == round2v(
        position_value_v(h, cu, rate) - position_value_v(h, pu, rate),
    )
    &&& row.percent_change.wf() && row.percent_change.v() == percent_change_v(
        quoted_price(pu, rate),
        quoted_price(cu, rate),
    )
    &&& row.change == spec_classify(quoted_price(pu, rate), quoted_price(cu, rate))
    &&& row.has_holding == (h > 0)
}

/// What a whole report must say about a configuration, a live price map,
/// an exchange rate, and the current instant.
pub open spec fn report_matches(
    r: ValuationReport,
    config: Configuration,
    live: Map<Seq<char>, Dec>,
    rate: int,
    now: u64,
) -> bool {
    let positions = config.portfolio.positions@;
    let prior = config.prices.as_map();
    let n = positions.len() as int;
    &&& r.rows@.len() == positions.len()
    &&& forall|i: int|
        0 <= i < n ==> row_matches(#[trigger] r.rows@[i], positions[i], prior, live, rate)
    &&& r.prior_total.wf() && r.prior_total.v() == total_value(positions, prior, rate, n)
    &&& r.current_total.wf() && r.current_total.v() == total_value(positions, live, rate, n)
    &&& r.total_change.wf() && r.total_change.v() == round2v(
        total_value(positions, live, rate, n) - total_value(positions, prior, rate, n),
    )
    &&& r.change == spec_classify(
        total_value(positions, prior, rate, n),
        total_value(positions, live, rate, n),
    )
    &&& r.elapsed_seconds == if now >= config.timestamp {
        (now - config.timestamp) as int
    } else {
        0
    }
    &&& r.elapsed@ == hhhmmss_text(r.elapsed_seconds as int)
}

/// Value the portfolio: compute, for every position in order, the
/// displayed prices, deltas, values and classification, and the aggregate
/// figures, against the stored prior snapshot and the live prices.
pub fn evaluate(config: &Configuration, live: &PriceMap, rate: Dec, now: u64) -> (r:
    ValuationReport)
    requires
        config.wf(),
        live.wf(),
        rate.wf(),
        eval_fits(config.portfolio.positions@, config.prices.as_map(), live.as_map(), rate.v()),
    ensures
        report_matches(r, *config, live.as_map(), rate.v(), now),
{
    let ghost positions = config.portfolio.positions@;
    let ghost prior_map = config.prices.as_map();
    let ghost live_map = live.as_map();
    let n = config.portfolio.positions.len();
    let mut rows: Vec<PositionReport> = Vec::new();
    let mut prior_total = Dec::zero();
    let mut current_total = Dec::zero();
    let mut i: usize = 0;
    while i < n
        invariant
            config.wf(),
            live.wf(),
            rate.wf(),
            eval_fits(positions, prior_map, live_map, rate.v()),
            positions == config.portfolio.positions@,
            prior_map == config.prices.as_map(),
            live_map == live.as_map(),
            n == positions.len(),
            0 <= i <= n,
            rows@.len() == i,
            forall|k: int|
                0 <= k < i ==> row_matches(
                    #[trigger] rows@[k],
                    positions[k],
                    prior_map,
                    live_map,
                    rate.v(),
                ),
            prior_total.wf(),
            prior_total.v() == total_value(positions, prior_map, rate.v(), i as int),
            current_total.wf(),
            current_total.v() == total_value(positions, live_map, rate.v(), i as int),
        decreases n - i,
    {
        let position = &config.portfolio.positions[i];
        let current_usd = match live.get(&position.currency) {
            Some(p) => p,
            None => Dec::zero(),
        };
        let prior_usd = match config.prices.get(&position.currency) {
            Some(p) => p,
            None => Dec::zero(),
        };
        proof {
            assert(current_usd.v() == price_or_zero(live_map, positions[i as int].currency@));
            assert(prior_usd.v() == price_or_zero(prior_map, positions[i as int].currency@));
        }
        let current_price = current_usd.mul(rate).round_dp2();
        let prior_price = prior_usd.mul(rate).round_dp2();
        let price_change = current_price.sub(prior_price).mul(rate).round_dp2();
        let prior_value = position.holding.mul(prior_price).mul(rate);
        let current_value = position.holding.mul(current_price).mul(rate);
        let value_change = current_value.sub(prior_value).round_dp2();
        let percent = percent_change(prior_price, current_price);
        let change = classify(&prior_price, &current_price);
        let has_holding = position.holding.is_positive();
        let row = PositionReport {
            currency: position.currency.clone(),
            holding: position.holding,
            current_price,
            prior_price,
            price_change,
            prior_value,
            current_value,
            value_change,
            percent_change: percent,
            change,
            has_holding,
        };
        proof {
            assert(row_matches(row, positions[i as int], prior_map, live_map, rate.v()));
            assert(total_value(positions, prior_map, rate.v(), i + 1) == total_value(
                positions,
                prior_map,
                rate.v(),
                i as int,
            ) + position_value_v(
                positions[i as int].holding.v(),
                price_or_zero(prior_map, positions[i as int].currency@),
                rate.v(),
            ));
            assert(total_value(positions, live_map, rate.v(), i + 1) == total_value(
                positions,
                live_map,
                rate.v(),
                i as int,
            ) + position_value_v(
                positions[i as int].holding.v(),
                price_or_zero(live_map, positions[i as int].currency@),
                rate.v(),
            ));
        }
        rows.push(row);
        prior_total = prior_total.add(prior_value);
        current_total = current_total.add(current_value);
        i = i + 1;
    }
    let total_change = current_total.sub(prior_total).round_dp2();
    let change = classify(&prior_total, &current_total);
    let elapsed_seconds: u64 = if now >= config.timestamp {
        now - config.timestamp
    } else {
        0
    };
    let elapsed = hhhmmss(elapsed_seconds);
    ValuationReport {
        rows,
        prior_total,
        current_total,
        total_change,
        change,
        elapsed_seconds,
        elapsed,
    }
}


/// The rounded product of two bounded values, executably.
fn mulv_i128(a: i128, b: i128) -> (r: i128)
    requires
        -M_MAX <= a <= M_MAX,
        -M_MAX <= b <= M_MAX,
    ensures
        r == mulv(a as int, b as int),
{
    proof {
        assert(-crate::decimal::RD_MAX <= (a as int) * (b as int) <= crate::decimal::RD_MAX)
            by (nonlinear_arith)
            requires
                -M_MAX <= a <= M_MAX && -M_MAX <= b <= M_MAX && M_MAX
                    == 4_000_000_000_000_000_000i128 && crate::decimal::RD_MAX
                    == 80_000_000_000_000_000_000_000_000_000_000_000_000i128,
        ;
    }
    crate::decimal::rdiv_i128(a * b, P9)
}

/// The two-place rounding of a bounded value, executably; the result is
/// bounded too.
fn round2v_i128(x: i128) -> (r: i128)
    requires
        -M_MAX <= x <= M_MAX,
    ensures
        r == round2v(x as int),
        -M_MAX <= r <= M_MAX,
{
    proof {
        crate::decimal::lemma_rdiv_bound(x as int, 10_000_000int, 400_000_000_000int);
    }
    let q = crate::decimal::rdiv_i128(x, 10_000_000);
    q * 10_000_000
}

/// The value a price map gives for a ticker, or zero, executably.
fn price_units_or_zero(m: &PriceMap, currency: &String) -> (r: i128)
    requires
        m.wf(),
    ensures
        r == price_or_zero(m.as_map(), currency@),
        0 <= r <= M_MAX,
{
    match m.get(currency) {
        Some(p) => p.units(),
        None => 0,
    }
}

/// Decide the engine's machine-limit precondition: whether every
/// intermediate figure of a valuation stays within the representable
/// range. A caller outside the verified world checks this before asking
/// for a valuation.
pub fn eval_fits_check(config: &Configuration, live: &PriceMap, rate: Dec) -> (r: bool)
    requires
        config.wf(),
        live.wf(),
        rate.wf(),
    ensures
        r == eval_fits(
            config.portfolio.positions@,
            config.prices.as_map(),
            live.as_map(),
            rate.v(),
        ),
{
    let ghost positions = config.portfolio.positions@;
    let ghost prior_map = config.prices.as_map();
    let ghost live_map = live.as_map();
    let rv = rate.units();
    let n = config.portfolio.positions.len();
    let mut prior_total: i128 = 0;
    let mut current_total: i128 = 0;
    let mut i: usize = 0;
    while i < n
        invariant
            config.wf(),
            live.wf(),
            rate.wf(),
            positions == config.portfolio.positions@,
            prior_map == config.prices.as_map(),
            live_map == live.as_map(),
            rv == rate.v(),
            -M_MAX <= rv <= M_MAX,
            n == positions.len(),
            0 <= i <= n,
            forall|k: int|
                0 <= k < i ==> {
                    let h = (#[trigger] positions[k]).holding.v();
                    let pu = price_or_zero(prior_map, positions[k].currency@);
                    let cu = price_or_zero(live_map, positions[k].currency@);
                    &&& -M_MAX <= mulv(pu, rv as int) <= M_MAX
                    &&& -M_MAX <= mulv(cu, rv as int) <= M_MAX
                    &&& -M_MAX <= quoted_price(cu, rv as int) - quoted_price(pu, rv as int)
                        <= M_MAX
                    &&& -M_MAX <= percent_change_v(
                        quoted_price(pu, rv as int),
                        quoted_price(cu, rv as int),
                    ) <= M_MAX
                    &&& -M_MAX <= mulv(
                        quoted_price(cu, rv as int) - quoted_price(pu, rv as int),
                        rv as int,
                    ) <= M_MAX
                    &&& -M_MAX <= mulv(h, quoted_price(pu, rv as int)) <= M_MAX
                    &&& -M_MAX <= mulv(h, quoted_price(cu, rv as int)) <= M_MAX
                    &&& -M_MAX <= position_value_v(h, pu, rv as int) <= M_MAX
                    &&& -M_MAX <= position_value_v(h, cu, rv as int) <= M_MAX
                    &&& -M_MAX <= position_value_v(h, cu, rv as int) - position_value_v(
                        h,
                        pu,
                        rv as int,
                    ) <= M_MAX
                },
            forall|k: int|
                0 <= k <= i ==> {
                    &&& -M_MAX <= #[trigger] total_value(positions, prior_map, rv as int, k)
                        <= M_MAX
                    &&& -M_MAX <= total_value(positions, live_map, rv as int, k) <= M_MAX
                },
            prior_total == total_value(positions, prior_map, rv as int, i as int),
            current_total == total_value(positions, live_map, rv as int, i as int),
        decreases n - i,
    {
        let position = &config.portfolio.positions[i];
        let pu = price_units_or_zero(&config.prices, &position.currency);
        let cu = price_units_or_zero(live, &position.currency);
        proof {
            crate::decimal::lemma_mantissa_bound(position.holding);
        }
        let h = position.holding.units();
        let mpu = mulv_i128(pu, rv);
        if mpu > M_MAX || mpu < -M_MAX {
            return false;
        }
        let mcu = mulv_i128(cu, rv);
        if mcu > M_MAX || mcu < -M_MAX {
            return false;
        }
        let qp = round2v_i128(mpu);
        let qc = round2v_i128(mcu);
        let diff = qc - qp;
        if diff > M_MAX || diff < -M_MAX {
            return false;
        }
        // The percent figure: guarded division, then the hundredfold.
        if qp != 0 {
            proof {
                assert(-16_000_000_000_000_000_000_000_000_000_000_000_000i128 <= (diff as int) * (
                P9 as int) <= 16_000_000_000_000_000_000_000_000_000_000_000_000i128)
                    by (nonlinear_arith)
                    requires
                        -M_MAX <= diff <= M_MAX && M_MAX == 4_000_000_000_000_000_000i128 && P9
                            == 1_000_000_000i128,
                ;
            }
            let num = diff * P9;
            let q = if qp > 0 {
                crate::decimal::rdiv_i128(num, qp)
            } else {
                crate::decimal::rdiv_i128(-num, -qp)
            };
            if q > M_MAX / 100 || q < -(M_MAX / 100) {
                return false;
            }
        }
        let mdiff = mulv_i128(diff, rv);
        if mdiff > M_MAX || mdiff < -M_MAX {
            return false;
        }
        let hp = mulv_i128(h, qp);
        if hp > M_MAX || hp < -M_MAX {
            return false;
        }
        let hc = mulv_i128(h, qc);
        if hc > M_MAX || hc < -M_MAX {
            return false;
        }
        let pv = mulv_i128(hp, rv);
        if pv > M_MAX || pv < -M_MAX {
            return false;
        }
        let cv = mulv_i128(hc, rv);
        if cv > M_MAX || cv < -M_MAX {
            return false;
        }
        let dv = cv - pv;
        if dv > M_MAX || dv < -M_MAX {
            return false;
        }
        proof {
            assert(total_value(positions, prior_map, rv as int, i + 1) == total_value(
                positions,
                prior_map,
                rv as int,
                i as int,
            ) + position_value_v(
                positions[i as int].holding.v(),
                price_or_zero(prior_map, positions[i as int].currency@),
                rv as int,
            ));
            assert(total_value(positions, live_map, rv as int, i + 1) == total_value(
                positions,
                live_map,
                rv as int,
                i as int,
            ) + position_value_v(
                positions[i as int].holding.v(),
                price_or_zero(live_map, positions[i as int].currency@),
                rv as int,
            ));
        }
        let npt = prior_total + pv;
        if npt > M_MAX || npt < -M_MAX {
            return false;
        }
        let nct = current_total + cv;
        if nct > M_MAX || nct < -M_MAX {
            return false;
        }
        prior_total = npt;
        current_total = nct;
        i = i + 1;
    }
    let td = current_total - prior_total;
    if td > M_MAX || td < -M_MAX {
        return false;
    }
    true
}

} // verus!
