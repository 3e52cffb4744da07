use fastk::derived::{
    decode_scoped_scalar_key, decode_scoped_scalar_name, encode_scoped_scalar_name, factor_series_key,
    feature_series_key, indicator_series_key, metric_series_key, portfolio_series_key,
    reserved_scalar_categories, risk_series_key, signal_series_key, ScopedScalarBinding, FACTOR_CATEGORY,
    FEATURE_CATEGORY, INDICATOR_CATEGORY, METRIC_CATEGORY, PORTFOLIO_CATEGORY, RISK_CATEGORY, SIGNAL_CATEGORY,
};

#[test]
fn scoped_scalar_name_roundtrip_is_stable() {
    let encoded = encode_scoped_scalar_name("1m", "rsi14");
    assert_eq!(encoded, "1m@@rsi14");
    assert_eq!(decode_scoped_scalar_name(&encoded), Some(("1m", "rsi14")));
}

#[test]
fn scoped_binding_roundtrip_matches_series_key() {
    let binding = ScopedScalarBinding::indicator("BTCUSDT", "1m", "rsi14");
    let key = binding.to_series_key();
    assert_eq!(key, indicator_series_key("BTCUSDT", "1m", "rsi14"));

    let decoded = decode_scoped_scalar_key(&key).expect("scoped key should decode");
    assert_eq!(decoded.symbol, "BTCUSDT");
    assert_eq!(decoded.timeframe, "1m");
    assert_eq!(decoded.category, INDICATOR_CATEGORY);
    assert_eq!(decoded.name, "rsi14");
}

#[test]
fn canonical_scalar_categories_build_expected_keys() {
    assert_eq!(
        feature_series_key("BTCUSDT", "1m", "spread"),
        ScopedScalarBinding::feature("BTCUSDT", "1m", "spread").to_series_key()
    );
    assert_eq!(factor_series_key("BTCUSDT", "1m", "momentum_20").category, FACTOR_CATEGORY);
    assert_eq!(signal_series_key("BTCUSDT", "strategy_v2", "target_weight").name, "strategy_v2@@target_weight");
    assert_eq!(portfolio_series_key("run_20260424", "nav").symbol, "__portfolio__");
    assert_eq!(risk_series_key("BTCUSDT", "1m", "drawdown").category, RISK_CATEGORY);
    assert_eq!(metric_series_key("__system__", "1s", "query_latency").category, METRIC_CATEGORY);
    assert_eq!(
        reserved_scalar_categories(),
        &[
            INDICATOR_CATEGORY,
            FEATURE_CATEGORY,
            FACTOR_CATEGORY,
            SIGNAL_CATEGORY,
            PORTFOLIO_CATEGORY,
            RISK_CATEGORY,
            METRIC_CATEGORY,
        ]
    );
}

#[test]
fn decode_splits_at_first_separator() {
    assert_eq!(decode_scoped_scalar_name("a@@b@@c"), Some(("a", "b@@c")));
    assert_eq!(decode_scoped_scalar_name("a@@@b"), Some(("a", "@b")));
    assert_eq!(decode_scoped_scalar_name("@@"), Some(("", "")));
    assert_eq!(decode_scoped_scalar_name("plain"), None);
    assert_eq!(decode_scoped_scalar_name("one@two"), None);
    assert_eq!(decode_scoped_scalar_name("é@@ü"), Some(("é", "ü")));
}

#[test]
fn timeframe_ending_in_at_sign_does_not_roundtrip() {
    let encoded = encode_scoped_scalar_name("1m@", "x");
    assert_eq!(decode_scoped_scalar_name(&encoded), Some(("1m", "@x")));
}

#[test]
fn unscoped_key_does_not_decode() {
    let key = fastk::predicate::ScalarSeriesKey {
        symbol: "BTCUSDT".to_string(),
        category: "indicator".to_string(),
        name: "rsi14".to_string(),
    };
    assert!(decode_scoped_scalar_key(&key).is_none());
}

#[test]
fn binding_constructors_set_categories() {
    let b = ScopedScalarBinding::portfolio("1d", "nav");
    assert_eq!(b.symbol, "__portfolio__");
    assert_eq!(b.category, PORTFOLIO_CATEGORY);
    assert_eq!(ScopedScalarBinding::signal("S", "1m", "x").category, SIGNAL_CATEGORY);
    assert_eq!(ScopedScalarBinding::risk("S", "1m", "x").category, RISK_CATEGORY);
    assert_eq!(ScopedScalarBinding::metric("S", "1m", "x").category, METRIC_CATEGORY);
    assert_eq!(ScopedScalarBinding::factor("S", "1m", "x").category, FACTOR_CATEGORY);
    assert_eq!(ScopedScalarBinding::feature("S", "1m", "x").category, FEATURE_CATEGORY);
}
