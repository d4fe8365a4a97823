use rcryptoport::decimal::Dec;
use rcryptoport::engine::{change_color, classify, eval_fits_check, evaluate, Change};
use rcryptoport::model::{price_map_from_pairs, Configuration, Portfolio, Position, PriceMap};
use rcryptoport::snapshot::{build_snapshot, run_iteration};

fn position(ticker: &str, holding: Dec) -> Position {
    Position {
        currency: ticker.to_string(),
        holding,
    }
}

fn config_with(positions: Vec<Position>, prices: PriceMap, timestamp: u64) -> Configuration {
    Configuration {
        app_id: "key".to_string(),
        fx_app_id: String::new(),
        timestamp,
        portfolio: Portfolio { positions },
        prices,
    }
}

#[test]
fn test_change_color() {
    let mut color: String;
    color = change_color(&Dec::from_int(0), &Dec::from_int(1));
    assert_eq!("green", color);
    color = change_color(&Dec::from_int(1), &Dec::from_int(0));
    assert_eq!("red", color);
    color = change_color(&Dec::from_int(1), &Dec::from_int(1));
    assert_eq!("white", color);
}

#[test]
fn test_classify() {
    assert_eq!(Change::Up, classify(&Dec::from_int(0), &Dec::from_int(1)));
    assert_eq!(Change::Down, classify(&Dec::from_int(1), &Dec::from_int(0)));
    assert_eq!(
        Change::Unchanged,
        classify(&Dec::from_int(1), &Dec::from_int(1))
    );
}

#[test]
fn test_evaluate_basic_figures() {
    let mut prior = PriceMap::new();
    prior.insert("BTC".to_string(), Dec::from_int(60_000));
    let mut live = PriceMap::new();
    live.insert("BTC".to_string(), Dec::from_int(65_000));
    let holding = Dec::from_parts(15, 1).unwrap(); // 1.5
    let config = config_with(vec![position("BTC", holding)], prior, 1_000);
    let report = evaluate(&config, &live, Dec::from_int(1), 1_071);
    assert_eq!(1, report.rows.len());
    let row = &report.rows[0];
    assert_eq!("BTC", row.currency);
    assert_eq!(Dec::from_int(65_000), row.current_price);
    assert_eq!(Dec::from_int(60_000), row.prior_price);
    assert_eq!(Dec::from_int(5_000), row.price_change);
    assert_eq!(Dec::from_int(90_000), row.prior_value);
    assert_eq!(Dec::from_int(97_500), row.current_value);
    assert_eq!(Dec::from_int(7_500), row.value_change);
    // (65000 - 60000) / 60000 * 100, to nine places.
    assert_eq!(Dec::from_parts(83_333_333, 7).unwrap(), row.percent_change);
    assert_eq!(Change::Up, row.change);
    assert!(row.has_holding);
    assert_eq!(Dec::from_int(90_000), report.prior_total);
    assert_eq!(Dec::from_int(97_500), report.current_total);
    assert_eq!(Dec::from_int(7_500), report.total_change);
    assert_eq!(Change::Up, report.change);
    assert_eq!(71, report.elapsed_seconds);
    assert_eq!("000:01:11", report.elapsed);
}

#[test]
fn test_evaluate_missing_price_is_zero_sentinel() {
    // A currency the service did not return prices at the zero sentinel.
    let prior = PriceMap::new();
    let live = PriceMap::new();
    let config = config_with(vec![position("XYZ", Dec::from_int(2))], prior, 0);
    let report = evaluate(&config, &live, Dec::from_int(1), 0);
    let row = &report.rows[0];
    assert_eq!(Dec::zero(), row.current_price);
    assert_eq!(Dec::zero(), row.prior_price);
    assert_eq!(Change::Unchanged, row.change);
    assert_eq!(Dec::zero(), report.current_total);
}

#[test]
fn test_revaluation_after_persist_is_unchanged() {
    // Valuing once, persisting, and valuing again against the same live
    // prices yields a zero aggregate delta and Unchanged everywhere.
    let mut live = PriceMap::new();
    live.insert("BTC".to_string(), Dec::from_parts(65_000_12, 2).unwrap());
    live.insert("ETH".to_string(), Dec::from_parts(3_500_25, 2).unwrap());
    let positions = vec![
        position("BTC", Dec::from_parts(15, 1).unwrap()),
        position("ETH", Dec::from_int(10)),
    ];
    let first = config_with(positions, PriceMap::new(), 50);
    let (_, persisted) = run_iteration(&first, live, Dec::from_int(1), 60, false);
    let next = persisted.unwrap();
    // The persisted snapshot holds exactly the live prices; fetch the
    // same prices again.
    let mut live_again = PriceMap::new();
    live_again.insert("BTC".to_string(), Dec::from_parts(65_000_12, 2).unwrap());
    live_again.insert("ETH".to_string(), Dec::from_parts(3_500_25, 2).unwrap());
    let report = evaluate(&next, &live_again, Dec::from_int(1), 60);
    for row in &report.rows {
        assert_eq!(Change::Unchanged, row.change);
        assert_eq!(Dec::zero(), row.price_change);
        assert_eq!(Dec::zero(), row.percent_change);
    }
    assert_eq!(Change::Unchanged, report.change);
    assert_eq!(Dec::zero(), report.total_change);
    assert_eq!(report.prior_total, report.current_total);
}

#[test]
fn test_zero_holding_contributes_nothing() {
    let mut live = PriceMap::new();
    live.insert("BTC".to_string(), Dec::from_int(65_000));
    let config = config_with(vec![position("BTC", Dec::zero())], PriceMap::new(), 0);
    let report = evaluate(&config, &live, Dec::from_int(1), 0);
    let row = &report.rows[0];
    assert!(!row.has_holding);
    assert_eq!(Dec::zero(), row.prior_value);
    assert_eq!(Dec::zero(), row.current_value);
    assert_eq!(Dec::zero(), report.prior_total);
    assert_eq!(Dec::zero(), report.current_total);
}

#[test]
fn test_quote_currency_conversion() {
    // With exchange rate 0.8, the displayed price is the USD price times
    // the rate, rounded to two places; position values compound the rate
    // once more, the engine's documented quirk.
    let mut live = PriceMap::new();
    live.insert("BTC".to_string(), Dec::from_int(65_000));
    let config = config_with(vec![position("BTC", Dec::from_int(2))], PriceMap::new(), 0);
    let rate = Dec::from_parts(8, 1).unwrap(); // 0.8
    let report = evaluate(&config, &live, rate, 0);
    let row = &report.rows[0];
    assert_eq!(Dec::from_int(52_000), row.current_price);
    // holding * quoted price * rate: 2 * 52000 * 0.8 = 83200.
    assert_eq!(Dec::from_int(83_200), row.current_value);
    assert_eq!(Dec::from_int(83_200), report.current_total);
}

#[test]
fn test_quote_conversion_rounds_to_two_places() {
    let mut live = PriceMap::new();
    live.insert("ADA".to_string(), Dec::from_parts(1_234, 3).unwrap()); // 1.234
    let config = config_with(vec![position("ADA", Dec::zero())], PriceMap::new(), 0);
    let rate = Dec::from_parts(9, 1).unwrap(); // 0.9
    let report = evaluate(&config, &live, rate, 0);
    // 1.234 * 0.9 = 1.1106 -> 1.11
    assert_eq!(
        Dec::from_parts(111, 2).unwrap(),
        report.rows[0].current_price
    );
}

#[test]
fn test_build_snapshot_replaces_prices_wholesale() {
    let mut old_prices = PriceMap::new();
    old_prices.insert("OLD".to_string(), Dec::from_int(1));
    let mut live = PriceMap::new();
    live.insert("BTC".to_string(), Dec::from_int(65_000));
    let portfolio = Portfolio {
        positions: vec![position("BTC", Dec::from_int(1))],
    };
    let next = build_snapshot(
        "id".to_string(),
        "fx".to_string(),
        portfolio,
        live,
        777,
    );
    assert_eq!(777, next.timestamp);
    assert_eq!("id", next.app_id);
    assert_eq!("fx", next.fx_app_id);
    // Stale currencies are dropped: only the fresh fetch remains.
    assert_eq!(1, next.prices.len());
    assert_eq!(Some(Dec::from_int(65_000)), next.prices.get(&"BTC".to_string()));
    assert_eq!(None, next.prices.get(&"OLD".to_string()));
}

#[test]
fn test_run_iteration_dry_run_persists_nothing() {
    let config = config_with(vec![], PriceMap::new(), 0);
    let (_, persisted) = run_iteration(&config, PriceMap::new(), Dec::from_int(1), 5, true);
    assert!(persisted.is_none());
}

#[test]
fn test_price_map_insert_replaces() {
    let mut m = PriceMap::new();
    m.insert("BTC".to_string(), Dec::from_int(1));
    m.insert("BTC".to_string(), Dec::from_int(2));
    m.insert("ETH".to_string(), Dec::from_int(3));
    assert_eq!(2, m.len());
    assert_eq!(Some(Dec::from_int(2)), m.get(&"BTC".to_string()));
    assert_eq!(Some(Dec::from_int(3)), m.get(&"ETH".to_string()));
    assert_eq!(None, m.get(&"DOGE".to_string()));
}

#[test]
fn test_eval_fits_check() {
    let mut live = PriceMap::new();
    live.insert("BTC".to_string(), Dec::from_int(65_000));
    let config = config_with(
        vec![position("BTC", Dec::from_parts(15, 1).unwrap())],
        PriceMap::new(),
        0,
    );
    assert!(eval_fits_check(&config, &live, Dec::from_int(1)));
    // A maximal holding priced at a maximal price overflows the range.
    let mut live_big = PriceMap::new();
    live_big.insert("BTC".to_string(), Dec::from_int(4_000_000_000));
    let config_big = config_with(
        vec![position("BTC", Dec::from_int(4_000_000_000))],
        PriceMap::new(),
        0,
    );
    assert!(!eval_fits_check(&config_big, &live_big, Dec::from_int(1)));
}

#[test]
fn test_price_map_from_pairs_skips_invalid() {
    // A malformed ticker or a negative price is passed over; valid pairs
    // enter the map, later pairs winning.
    let pairs = vec![
        ("BTC".to_string(), Dec::from_int(1)),
        ("btc".to_string(), Dec::from_int(2)),
        ("ETH".to_string(), Dec::from_int(-3)),
        ("BTC".to_string(), Dec::from_int(4)),
    ];
    let map = price_map_from_pairs(pairs);
    assert_eq!(1, map.len());
    assert_eq!(Some(Dec::from_int(4)), map.get(&"BTC".to_string()));
    assert_eq!(None, map.get(&"ETH".to_string()));
}
