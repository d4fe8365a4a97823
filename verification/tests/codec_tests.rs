use rcryptoport::codec::{parse_config, write_config_text, ConfigError};
use rcryptoport::decimal::Dec;
use rcryptoport::model::{Configuration, Portfolio, Position, PriceMap};

fn sample_config() -> Configuration {
    let mut prices = PriceMap::new();
    prices.insert("BTC".to_string(), Dec::from_parts(65_000_12, 2).unwrap());
    prices.insert("ETH".to_string(), Dec::from_parts(3_500_5, 1).unwrap());
    Configuration {
        app_id: "my-app-key".to_string(),
        fx_app_id: String::new(),
        timestamp: 1_634_694_598,
        portfolio: Portfolio {
            positions: vec![
                Position {
                    currency: "BTC".to_string(),
                    holding: Dec::from_parts(15, 1).unwrap(),
                },
                Position {
                    currency: "ETH".to_string(),
                    holding: Dec::zero(),
                },
            ],
        },
        prices,
    }
}

#[test]
fn test_write_exact_text() {
    let text = write_config_text(&sample_config());
    assert_eq!(
        "{\"app_id\":\"my-app-key\",\"fx_app_id\":\"\",\"timestamp\":1634694598,\
         \"portfolio\":{\"positions\":[{\"currency\":\"BTC\",\"holding\":\"1.5\"},\
         {\"currency\":\"ETH\",\"holding\":\"0\"}]},\
         \"prices\":{\"BTC\":\"65000.12\",\"ETH\":\"3500.5\"}}",
        text
    );
}

#[test]
fn test_round_trip() {
    // The snapshot builder's output, serialized and parsed back,
    // reproduces the identical prices mapping and timestamp.
    let config = sample_config();
    let text = write_config_text(&config);
    let back = parse_config(text.as_str(), 555).unwrap();
    assert_eq!(config.app_id, back.app_id);
    assert_eq!(config.fx_app_id, back.fx_app_id);
    assert_eq!(config.timestamp, back.timestamp);
    assert_eq!(
        config.portfolio.positions.len(),
        back.portfolio.positions.len()
    );
    for (a, b) in config
        .portfolio
        .positions
        .iter()
        .zip(back.portfolio.positions.iter())
    {
        assert_eq!(a.currency, b.currency);
        assert_eq!(a.holding, b.holding);
    }
    assert_eq!(config.prices.len(), back.prices.len());
    assert_eq!(
        Some(Dec::from_parts(65_000_12, 2).unwrap()),
        back.prices.get(&"BTC".to_string())
    );
    assert_eq!(
        Some(Dec::from_parts(3_500_5, 1).unwrap()),
        back.prices.get(&"ETH".to_string())
    );
}

#[test]
fn test_parse_literal_text() {
    let text = "{\"app_id\":\"k\",\"fx_app_id\":\"f\",\"timestamp\":7,\
                \"portfolio\":{\"positions\":[]},\"prices\":{}}";
    let config = parse_config(text, 555).unwrap();
    assert_eq!("k", config.app_id);
    assert_eq!("f", config.fx_app_id);
    assert_eq!(7, config.timestamp);
    assert!(config.portfolio.positions.is_empty());
    assert_eq!(0, config.prices.len());
    // Writing it again reproduces the input exactly.
    assert_eq!(text, write_config_text(&config));
}

#[test]
fn test_parse_rejects_malformed() {
    assert!(matches!(parse_config("", 555), Err(ConfigError::Malformed)));
    assert!(matches!(parse_config("{}", 555), Err(ConfigError::Malformed)));
    assert!(matches!(parse_config("not json at all", 555), Err(ConfigError::Malformed)));
    // Truncated input.
    assert!(matches!(parse_config("{\"app_id\":\"k\",\"fx_app_id\":\"f\",\"timestamp\":7", 555), Err(ConfigError::Malformed)));
    // Trailing garbage.
    assert!(matches!(parse_config(
            "{\"app_id\":\"k\",\"fx_app_id\":\"f\",\"timestamp\":7,\
             \"portfolio\":{\"positions\":[]},\"prices\":{}}x",
            555
        ), Err(ConfigError::Malformed)));
}

#[test]
fn test_parse_rejects_non_canonical() {
    // Whitespace is not canonical.
    assert!(matches!(parse_config(
            "{\"app_id\": \"k\",\"fx_app_id\":\"f\",\"timestamp\":7,\
             \"portfolio\":{\"positions\":[]},\"prices\":{}}",
            555
        ), Err(ConfigError::Malformed)));
    // A trailing zero in a decimal is not canonical.
    assert!(matches!(parse_config(
            "{\"app_id\":\"k\",\"fx_app_id\":\"f\",\"timestamp\":7,\
             \"portfolio\":{\"positions\":[]},\"prices\":{\"BTC\":\"1.50\"}}",
            555
        ), Err(ConfigError::Malformed)));
    // A leading zero in the timestamp is not canonical.
    assert!(matches!(parse_config(
            "{\"app_id\":\"k\",\"fx_app_id\":\"f\",\"timestamp\":07,\
             \"portfolio\":{\"positions\":[]},\"prices\":{}}",
            555
        ), Err(ConfigError::Malformed)));
    // A duplicate price key is rejected.
    assert!(matches!(parse_config(
            "{\"app_id\":\"k\",\"fx_app_id\":\"f\",\"timestamp\":7,\
             \"portfolio\":{\"positions\":[]},\
             \"prices\":{\"BTC\":\"1\",\"BTC\":\"2\"}}",
            555
        ), Err(ConfigError::Malformed)));
    // A lowercase ticker is rejected.
    assert!(matches!(parse_config(
            "{\"app_id\":\"k\",\"fx_app_id\":\"f\",\"timestamp\":7,\
             \"portfolio\":{\"positions\":[{\"currency\":\"btc\",\"holding\":\"1\"}]},\
             \"prices\":{}}",
            555
        ), Err(ConfigError::Malformed)));
    // A negative holding is rejected.
    assert!(matches!(parse_config(
            "{\"app_id\":\"k\",\"fx_app_id\":\"f\",\"timestamp\":7,\
             \"portfolio\":{\"positions\":[{\"currency\":\"BTC\",\"holding\":\"-1\"}]},\
             \"prices\":{}}",
            555
        ), Err(ConfigError::Malformed)));
}

#[test]
fn test_parse_one_position() {
    let text = "{\"app_id\":\"k\",\"fx_app_id\":\"\",\"timestamp\":0,\
                \"portfolio\":{\"positions\":[{\"currency\":\"BTC\",\"holding\":\"0.25\"}]},\
                \"prices\":{\"BTC\":\"60000\"}}";
    let config = parse_config(text, 555).unwrap();
    assert_eq!(1, config.portfolio.positions.len());
    assert_eq!("BTC", config.portfolio.positions[0].currency);
    assert_eq!(
        Dec::from_parts(25, 2).unwrap(),
        config.portfolio.positions[0].holding
    );
    assert_eq!(
        Some(Dec::from_int(60_000)),
        config.prices.get(&"BTC".to_string())
    );
}

#[test]
fn test_parse_optional_members_defaulted() {
    // A configuration holding only portfolio and prices: the credentials
    // default to empty and the timestamp to the given instant, so a first
    // run's elapsed time reads as zero.
    let text = "{\"portfolio\":{\"positions\":[]},\"prices\":{}}";
    let config = parse_config(text, 777).unwrap();
    assert_eq!("", config.app_id);
    assert_eq!("", config.fx_app_id);
    assert_eq!(777, config.timestamp);
    assert!(config.portfolio.positions.is_empty());
    assert_eq!(0, config.prices.len());
}

#[test]
fn test_parse_each_optional_member_alone() {
    let with_app = "{\"app_id\":\"k\",\"portfolio\":{\"positions\":[]},\"prices\":{}}";
    let c = parse_config(with_app, 9).unwrap();
    assert_eq!("k", c.app_id);
    assert_eq!("", c.fx_app_id);
    assert_eq!(9, c.timestamp);
    let with_ts = "{\"timestamp\":123,\"portfolio\":{\"positions\":[]},\"prices\":{}}";
    let c = parse_config(with_ts, 9).unwrap();
    assert_eq!("", c.app_id);
    assert_eq!(123, c.timestamp);
    let with_fx = "{\"fx_app_id\":\"fx\",\"portfolio\":{\"positions\":[]},\"prices\":{}}";
    let c = parse_config(with_fx, 9).unwrap();
    assert_eq!("fx", c.fx_app_id);
    assert_eq!(9, c.timestamp);
}
