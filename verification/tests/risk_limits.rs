use quant_engine::domain::{PriceTicks, QtyLots, Side};
use quant_engine::risk::{
    OrderIntent, RiskDecision, RiskRejectReason, RiskSnapshot, RiskSnapshotError, check, worst_long, worst_short,
};

fn intent(side: Side, lots: i64) -> OrderIntent {
    OrderIntent { side, price: PriceTicks::new(100).unwrap(), qty: QtyLots::new(lots).unwrap() }
}

fn snapshot(position: i64) -> RiskSnapshot {
    RiskSnapshot {
        enabled: true,
        book_fresh: true,
        book_tradable: true,
        position_lots: position,
        active_buy_lots: 0,
        uncertain_buy_lots: 0,
        active_sell_lots: 0,
        uncertain_sell_lots: 0,
        max_abs_position_lots: 10,
        max_order_lots: 4,
    }
}

#[test]
fn worst_case_counts_live_and_uncertain_orders() {
    let s = RiskSnapshot {
        active_buy_lots: 2,
        uncertain_buy_lots: 3,
        active_sell_lots: 1,
        uncertain_sell_lots: 4,
        ..snapshot(1)
    };
    assert_eq!(worst_long(s), 6);
    assert_eq!(worst_short(s), -4);
}

#[test]
fn more_exposure_never_allows_more_buying() {
    let mut previous = 5;
    for position in 0..=11 {
        let allowed = match check(intent(Side::Buy, 5), snapshot(position)) {
            RiskDecision::Allow => 5,
            RiskDecision::Resize { max_qty_lots } => max_qty_lots,
            RiskDecision::Reject(_) => 0,
        };
        assert!(allowed <= previous);
        assert!(allowed == 0 || position + allowed <= 10);
        assert!(allowed <= 4);
        previous = allowed;
    }
    assert_eq!(check(intent(Side::Buy, 1), snapshot(10)), RiskDecision::Reject(RiskRejectReason::PositionLimit));
}

#[test]
fn sells_are_limited_on_the_short_side() {
    assert_eq!(check(intent(Side::Sell, 3), snapshot(-8)), RiskDecision::Resize { max_qty_lots: 2 });
    assert_eq!(check(intent(Side::Sell, 3), snapshot(0)), RiskDecision::Allow);
    assert_eq!(check(intent(Side::Sell, 5), snapshot(0)), RiskDecision::Resize { max_qty_lots: 4 });
}

#[test]
fn each_gate_rejects_with_its_reason() {
    let disabled = RiskSnapshot { enabled: false, ..snapshot(0) };
    assert_eq!(check(intent(Side::Buy, 1), disabled), RiskDecision::Reject(RiskRejectReason::TradingDisabled));
    let limits = RiskSnapshot { max_order_lots: 0, ..snapshot(0) };
    assert_eq!(check(intent(Side::Buy, 1), limits), RiskDecision::Reject(RiskRejectReason::InvalidLimits));
    assert_eq!(limits.validate(), Err(RiskSnapshotError::InvalidLimits));
    let negative = RiskSnapshot { uncertain_sell_lots: -1, ..snapshot(0) };
    assert_eq!(negative.validate(), Err(RiskSnapshotError::NegativeOpenExposure));
    assert_eq!(snapshot(0).validate(), Ok(()));
    assert_eq!(RiskRejectReason::PositionLimit.as_str(), "position_limit");
    assert_eq!(RiskRejectReason::InvalidExposure.as_str(), "invalid_exposure");
    assert_eq!(RiskRejectReason::InvalidLimits.as_str(), "invalid_limits");
    assert_eq!(RiskRejectReason::TradingDisabled.as_str(), "trading_disabled");
    assert_eq!(RiskRejectReason::UntradableBook.as_str(), "untradable_book");
    assert_eq!(RiskSnapshotError::NegativeOpenExposure.message(), "active and uncertain exposure cannot be negative");
    assert_eq!(
        RiskSnapshotError::InvalidLimits.message(),
        "position limit must be non-negative and order limit positive"
    );
}
