//! Laws of the valuation: properties that hold of every run.

use vstd::prelude::*;
use crate::decimal::{round2v, Dec, P9};
use crate::engine::{
    mulv, position_value_v, price_or_zero, quoted_price, spec_classify, total_value, Change,
};
use crate::model::Position;
use crate::percent::percent_change_v;

verus! {

/// Revaluing against an unchanged price map is a no-op: when the live
/// prices equal the stored snapshot, every position classifies as
/// `Unchanged`, the two totals coincide, and the displayed aggregate
/// delta is exactly zero.
pub proof fn lemma_idempotent_revaluation(
    positions: Seq<Position>,
    prior: Map<Seq<char>, Dec>,
    live: Map<Seq<char>, Dec>,
    rate: int,
    n: int,
)
    requires
        live == prior,
    ensures
        forall|i: int|
            0 <= i < n ==> spec_classify(
                quoted_price(price_or_zero(prior, (#[trigger] positions[i]).currency@), rate),
                quoted_price(price_or_zero(live, positions[i].currency@), rate),
            ) == Change::Unchanged,
        forall|i: int|
            0 <= i < n ==> percent_change_v(
                quoted_price(price_or_zero(prior, (#[trigger] positions[i]).currency@), rate),
                quoted_price(price_or_zero(live, positions[i].currency@), rate),
            ) == 0,
        total_value(positions, live, rate, n) == total_value(positions, prior, rate, n),
        round2v(total_value(positions, live, rate, n) - total_value(positions, prior, rate, n))
            == 0,
{
    crate::decimal::lemma_rdiv_exact(0, 10_000_000int);
    assert forall|i: int| 0 <= i < n implies percent_change_v(
        quoted_price(price_or_zero(prior, (#[trigger] positions[i]).currency@), rate),
        quoted_price(price_or_zero(live, positions[i].currency@), rate),
    ) == 0 by {
        let q = quoted_price(price_or_zero(prior, positions[i].currency@), rate);
        if q != 0 {
            crate::decimal::lemma_rdiv_exact(0, if q > 0 { q } else { -q });
            assert((0 - q + q) * (crate::decimal::P9 as int) == 0) by (nonlinear_arith);
            assert(0 * (if q > 0 { q } else { -q }) == 0) by (nonlinear_arith);
        }
    }
}

/// A watch-only position counts for nothing: with a zero holding, both
/// position values are zero whatever the prices, and the running totals
/// pass over the position unchanged.
pub proof fn lemma_zero_holding_contributes_nothing(
    positions: Seq<Position>,
    m: Map<Seq<char>, Dec>,
    rate: int,
    i: int,
)
    requires
        0 <= i < positions.len(),
        positions[i].holding.v() == 0,
    ensures
        position_value_v(positions[i].holding.v(), price_or_zero(m, positions[i].currency@), rate)
            == 0,
        total_value(positions, m, rate, i + 1) == total_value(positions, m, rate, i),
{
    let usd = price_or_zero(m, positions[i].currency@);
    lemma_mulv_zero(quoted_price(usd, rate));
    lemma_mulv_zero(rate);
}

/// Zero times anything is zero, under the rounded product.
pub proof fn lemma_mulv_zero(x: int)
    ensures
        mulv(0, x) == 0,
{
    assert(0 * x == 0) by (nonlinear_arith);
    crate::decimal::lemma_rdiv_exact(0, P9 as int);
    assert(0 * (P9 as int) == 0) by (nonlinear_arith);
}

/// Under a quote currency with exchange rate `r`, the displayed price is
/// the USD price times `r`, rounded to two places — exactly, whenever the
/// product needs no more than nine fractional digits (the rate and the
/// stored price together carry at most nine).
pub proof fn lemma_quoted_price_is_converted_price(usd: int, rate: int)
    requires
        (usd * rate) % (P9 as int) == 0,
    ensures
        quoted_price(usd, rate) == round2v((usd * rate) / (P9 as int)),
{
    vstd::arithmetic::div_mod::lemma_fundamental_div_mod(usd * rate, P9 as int);
    crate::decimal::lemma_rdiv_exact((usd * rate) / (P9 as int), P9 as int);
    assert(((usd * rate) / (P9 as int)) * (P9 as int) == usd * rate) by (nonlinear_arith)
        requires
            usd * rate == (P9 as int) * ((usd * rate) / (P9 as int)),
    ;
}

/// The portfolio totals are exactly the sums of the per-position values,
/// position by position, in order.
pub proof fn lemma_total_is_sum_of_positions(
    positions: Seq<Position>,
    m: Map<Seq<char>, Dec>,
    rate: int,
    n: int,
)
    requires
        0 < n <= positions.len(),
    ensures
        total_value(positions, m, rate, n) == total_value(positions, m, rate, n - 1)
            + position_value_v(
            positions[n - 1].holding.v(),
            price_or_zero(m, positions[n - 1].currency@),
            rate,
        ),
        total_value(positions, m, rate, 0) == 0,
{
}

} // verus!
