use quant_engine::domain::PriceTicks;
use quant_engine::order_book::OrderBook;
use quant_engine::venue_fixture::{
    DecimalScale, FixtureError, RawDepthDelta, RawSnapshot, delta_from_raw, parse_decimal, snapshot_from_raw,
};

const SCALE: DecimalScale = DecimalScale { price_decimals: 2, qty_decimals: 2 };

fn level(price: &str, qty: &str) -> [String; 2] {
    [price.to_string(), qty.to_string()]
}

#[test]
fn decimal_parser_rejects_nonzero_excess_precision() {
    assert_eq!(parse_decimal("100.0100", 2), Ok(10_001));
    assert_eq!(
        parse_decimal("100.011", 2),
        Err(FixtureError::TooPrecise { value: "100.011".into(), decimals: 2 })
    );
}

#[test]
fn decimal_parser_edge_cases() {
    assert_eq!(parse_decimal("+1.5", 2), Ok(150));
    assert_eq!(parse_decimal("1.", 2), Ok(100));
    assert_eq!(parse_decimal("007", 0), Ok(7));
    assert_eq!(parse_decimal("12.340", 3), Ok(12_340));
    assert_eq!(parse_decimal("-1", 2), Err(FixtureError::NegativeValue("-1".into())));
    assert_eq!(parse_decimal(".5", 2), Err(FixtureError::InvalidDecimal(".5".into())));
    assert_eq!(parse_decimal("+.5", 2), Err(FixtureError::InvalidDecimal(".5".into())));
    assert_eq!(parse_decimal("1.2.3", 2), Err(FixtureError::InvalidDecimal("1.2.3".into())));
    assert_eq!(parse_decimal("abc", 2), Err(FixtureError::InvalidDecimal("abc".into())));
    assert_eq!(parse_decimal("", 2), Err(FixtureError::InvalidDecimal("".into())));
    assert_eq!(parse_decimal("92233720368547758.07", 2), Ok(i64::MAX));
    assert_eq!(
        parse_decimal("92233720368547758.08", 2),
        Err(FixtureError::NumericOverflow("92233720368547758.08".into()))
    );
    assert_eq!(parse_decimal("1", 40), Err(FixtureError::NumericOverflow("1".into())));
}

#[test]
fn raw_snapshot_and_deltas_build_a_continuous_book() {
    let raw = RawSnapshot {
        last_update_id: 100,
        bids: vec![level("100.00", "1.00"), level("99.99", "2.50")],
        asks: vec![level("100.02", "0.75")],
    };
    let snapshot = snapshot_from_raw(raw, SCALE).unwrap();
    assert_eq!(snapshot.sequence, 100);
    assert_eq!(snapshot.bids[0], (PriceTicks::new(10_000).unwrap(), 100));
    assert_eq!(snapshot.bids[1], (PriceTicks::new(9_999).unwrap(), 250));
    let mut book = OrderBook::default();
    book.apply_snapshot(snapshot).unwrap();

    let raw_delta = RawDepthDelta {
        event_time_ms: 7,
        symbol: "BTCUSDT".to_string(),
        first_update_id: 101,
        final_update_id: 103,
        bids: vec![level("100.01", "0.50"), level("100.00", "0")],
        asks: vec![level("100.03", "0.75"), level("100.02", "0.00")],
    };
    let delta = delta_from_raw(raw_delta, SCALE).unwrap();
    assert_eq!(delta.symbol, "BTCUSDT");
    assert_eq!(delta.event_time_ms, 7);
    book.apply_delta(delta.delta).unwrap();
    assert_eq!(book.last_sequence(), Some(103));
    assert_eq!(book.best_bid(), Some((PriceTicks::new(10_001).unwrap(), 50)));
    assert_eq!(book.best_ask(), Some((PriceTicks::new(10_003).unwrap(), 75)));
}

#[test]
fn bad_levels_refuse_the_whole_message_bids_first() {
    let zero = RawSnapshot { last_update_id: 1, bids: vec![level("0.00", "1")], asks: vec![] };
    assert_eq!(snapshot_from_raw(zero, SCALE), Err(FixtureError::ZeroPrice));
    let both = RawSnapshot {
        last_update_id: 1,
        bids: vec![level("1.001", "1")],
        asks: vec![level("x", "1")],
    };
    assert_eq!(
        snapshot_from_raw(both, SCALE),
        Err(FixtureError::TooPrecise { value: "1.001".into(), decimals: 2 })
    );
    let asks_only = RawDepthDelta {
        event_time_ms: 0,
        symbol: "S".to_string(),
        first_update_id: 1,
        final_update_id: 1,
        bids: vec![level("1", "1")],
        asks: vec![level("1", "-2")],
    };
    assert_eq!(delta_from_raw(asks_only, SCALE), Err(FixtureError::NegativeValue("-2".into())));
}

#[test]
fn fixture_errors_have_messages() {
    assert_eq!(FixtureError::InvalidJson("eof".into()).message(), "invalid fixture JSON: eof");
    assert_eq!(FixtureError::InvalidDecimal("x".into()).message(), "invalid decimal: x");
    assert_eq!(FixtureError::NegativeValue("-1".into()).message(), "fixture value cannot be negative: -1");
    assert_eq!(
        FixtureError::TooPrecise { value: "1.001".into(), decimals: 2 }.message(),
        "decimal exceeds 2 places: 1.001"
    );
    assert_eq!(FixtureError::NumericOverflow("9".into()).message(), "decimal does not fit in i64: 9");
    assert_eq!(FixtureError::ZeroPrice.message(), "price cannot be zero");
}
