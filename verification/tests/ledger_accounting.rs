use quant_engine::domain::{ExecutionKey, PriceTicks, QtyLots, Side};
use quant_engine::ledger::{ApplyOutcome, Fill, Ledger, LedgerError};
use quant_engine::rational::Rational;

fn price(value: i64) -> PriceTicks {
    PriceTicks::new(value).unwrap()
}

fn qty(value: i64) -> QtyLots {
    QtyLots::new(value).unwrap()
}

fn fill(id: &str, side: Side, price_ticks: i64, qty_lots: i64, fee: i128) -> Fill {
    Fill {
        key: ExecutionKey::new("SIM", "paper", "BTC-USD", id),
        side,
        price: price(price_ticks),
        qty: qty(qty_lots),
        fee_quote: fee,
    }
}

#[test]
fn average_cost_partial_close_and_reversal_close_exactly() {
    let mut ledger = Ledger::new(10_000);
    ledger.apply_fill(fill("buy-1", Side::Buy, 100, 2, 1)).unwrap();
    ledger.apply_fill(fill("buy-2", Side::Buy, 110, 3, 1)).unwrap();
    ledger.apply_fill(fill("sell-1", Side::Sell, 120, 2, 1)).unwrap();

    let snapshot = ledger.snapshot();
    assert_eq!(snapshot.position_lots, 3);
    assert_eq!(snapshot.open_cost_quote, Rational::from_integer(318));
    assert_eq!(snapshot.realized_price_pnl_quote, Rational::from_integer(28));
    assert!(ledger.verify_equity_identity(price(115)).unwrap());

    ledger.apply_fill(fill("sell-2", Side::Sell, 90, 5, 1)).unwrap();
    let snapshot = ledger.snapshot();
    assert_eq!(snapshot.position_lots, -2);
    assert_eq!(snapshot.open_cost_quote, Rational::from_integer(180));
    assert_eq!(snapshot.realized_price_pnl_quote, Rational::from_integer(-20));
    assert!(ledger.verify_equity_identity(price(80)).unwrap());
}

#[test]
fn duplicate_is_idempotent_but_conflicting_reuse_is_an_error() {
    let mut ledger = Ledger::new(1_000);
    let first = fill("execution-1", Side::Buy, 100, 2, 1);
    assert_eq!(ledger.apply_fill(first.clone()).unwrap(), ApplyOutcome::Applied);
    let checksum = ledger.state_checksum();
    assert_eq!(ledger.apply_fill(first).unwrap(), ApplyOutcome::Duplicate);
    assert_eq!(ledger.state_checksum(), checksum);

    assert!(matches!(
        ledger.apply_fill(fill("execution-1", Side::Buy, 101, 2, 1)),
        Err(LedgerError::ConflictingExecution(_))
    ));
    assert_eq!(ledger.state_checksum(), checksum);
}

#[test]
fn negative_fee_is_refused_and_leaves_the_ledger_alone() {
    let mut ledger = Ledger::new(500);
    let before = ledger.snapshot();
    assert_eq!(ledger.apply_fill(fill("neg", Side::Buy, 10, 1, -1)), Err(LedgerError::NegativeFee));
    assert_eq!(ledger.snapshot(), before);
}

#[test]
fn cash_equity_and_unrealized_follow_the_fills() {
    let mut ledger = Ledger::new(1_000);
    ledger.apply_fill(fill("b", Side::Buy, 100, 3, 2)).unwrap();
    let snapshot = ledger.snapshot();
    assert_eq!(snapshot.cash_quote, 1_000 - 300 - 2);
    assert_eq!(snapshot.fees_quote, 2);
    assert_eq!(snapshot.execution_count, 1);
    assert_eq!(ledger.equity_quote(price(110)).unwrap(), 698 + 330);
    assert_eq!(ledger.unrealized_price_pnl_quote(price(110)).unwrap(), Rational::from_integer(30));
    assert!(ledger.verify_equity_identity(price(97)).unwrap());
}

#[test]
fn fractional_average_cost_stays_exact() {
    let mut ledger = Ledger::new(0);
    ledger.apply_fill(fill("b1", Side::Buy, 10, 1, 0)).unwrap();
    ledger.apply_fill(fill("b2", Side::Buy, 11, 2, 0)).unwrap();
    ledger.apply_fill(fill("s1", Side::Sell, 12, 1, 0)).unwrap();
    let snapshot = ledger.snapshot();
    assert_eq!(snapshot.position_lots, 2);
    // average cost 32/3 per lot: the closed lot realizes 12 - 32/3 = 4/3
    assert_eq!(snapshot.realized_price_pnl_quote, Rational::new(4, 3).unwrap());
    assert_eq!(snapshot.open_cost_quote, Rational::new(64, 3).unwrap());
    assert_eq!(snapshot.realized_price_pnl_quote.text(), "4/3");
    assert!(ledger.verify_equity_identity(price(13)).unwrap());
}

#[test]
fn checksum_depends_on_the_fills_not_their_arrival_order() {
    let mut a = Ledger::new(100);
    let mut b = Ledger::new(100);
    a.apply_fill(fill("x", Side::Buy, 5, 1, 0)).unwrap();
    a.apply_fill(fill("y", Side::Buy, 5, 1, 0)).unwrap();
    b.apply_fill(fill("y", Side::Buy, 5, 1, 0)).unwrap();
    b.apply_fill(fill("x", Side::Buy, 5, 1, 0)).unwrap();
    assert_eq!(a.state_checksum(), b.state_checksum());
    let c = Ledger::new(100);
    assert_ne!(a.state_checksum(), c.state_checksum());
}

#[test]
fn rationals_reduce_and_refuse_zero_denominators() {
    let r = Rational::new(6, -4).unwrap();
    assert_eq!(r.numerator(), -3);
    assert_eq!(r.denominator(), 2);
    assert_eq!(Rational::new(1, 0), Err(LedgerError::ArithmeticOverflow));
    assert_eq!(Rational::from_integer(7).checked_add(Rational::new(1, 2).unwrap()).unwrap(), Rational::new(15, 2).unwrap());
    assert_eq!(Rational::new(3, 4).unwrap().checked_sub(Rational::new(1, 4).unwrap()).unwrap(), Rational::new(1, 2).unwrap());
    assert_eq!(Rational::new(3, 4).unwrap().checked_mul_integer(4).unwrap(), Rational::from_integer(3));
    assert_eq!(Rational::new(3, 4).unwrap().checked_div_integer(3).unwrap(), Rational::new(1, 4).unwrap());
    assert_eq!(Rational::new(3, 4).unwrap().checked_div_integer(0), Err(LedgerError::ArithmeticOverflow));
    assert_eq!(Rational::from_integer(-12).text(), "-12");
    assert_eq!(Rational::zero(), Rational::from_integer(0));
}

#[test]
fn ledger_errors_have_messages() {
    assert_eq!(LedgerError::NegativeFee.message(), "fill fee cannot be negative");
    assert_eq!(LedgerError::ArithmeticOverflow.message(), "ledger arithmetic overflow");
    assert_eq!(
        LedgerError::ConflictingExecution(ExecutionKey::new("SIM", "paper", "BTC-USD", "e-1")).message(),
        "execution key was reused with different facts: SIM/paper/BTC-USD/e-1"
    );
}

#[test]
fn reapplied_fills_and_refused_calls_leave_the_checksum_of_the_history() {
    let mut plain = Ledger::new(5_000);
    let mut noisy = Ledger::new(5_000);
    let history = [fill("a", Side::Buy, 100, 3, 1), fill("b", Side::Sell, 105, 1, 1), fill("c", Side::Sell, 90, 4, 2)];
    for f in history.iter() {
        plain.apply_fill(f.clone()).unwrap();
    }
    noisy.apply_fill(history[0].clone()).unwrap();
    assert_eq!(noisy.apply_fill(history[0].clone()), Ok(ApplyOutcome::Duplicate));
    assert_eq!(noisy.apply_fill(fill("bad", Side::Buy, 100, 1, -5)), Err(LedgerError::NegativeFee));
    noisy.apply_fill(history[1].clone()).unwrap();
    assert!(matches!(noisy.apply_fill(fill("a", Side::Sell, 100, 3, 1)), Err(LedgerError::ConflictingExecution(_))));
    noisy.apply_fill(history[2].clone()).unwrap();
    assert_eq!(noisy.apply_fill(history[1].clone()), Ok(ApplyOutcome::Duplicate));
    assert_eq!(noisy.snapshot(), plain.snapshot());
    assert_eq!(noisy.state_checksum(), plain.state_checksum());
}

#[test]
fn multiplying_then_dividing_gives_the_rational_back() {
    for (n, d, k) in [(3, 4, 7), (-5, 6, -3), (0, 1, 9), (7, 1, 2)] {
        let a = Rational::new(n, d).unwrap();
        let m = a.checked_mul_integer(k).unwrap();
        assert_eq!(m.checked_div_integer(k).unwrap(), a);
    }
    assert_eq!(Rational::new(1, 2).unwrap().checked_div_integer(0), Err(LedgerError::ArithmeticOverflow));
}
