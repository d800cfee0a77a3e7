use quant_engine::domain::{ClientOrderId, ExecutionKey, PriceTicks, QtyLots};
use quant_engine::oms::{Order, OrderEvent, OrderStatus, ReduceError, reduce};
use quant_engine::order_book::{BookError, Delta, OrderBook, Snapshot};

fn price(value: i64) -> PriceTicks {
    PriceTicks::new(value).unwrap()
}

fn key(id: &str) -> ExecutionKey {
    ExecutionKey::new("SIM", "paper", "BTC-USD", id)
}

#[test]
fn book_keeps_best_levels_and_refuses_bad_input() {
    let mut book = OrderBook::default();
    assert_eq!(book.best_bid(), None);
    assert_eq!(book.last_sequence(), None);
    assert_eq!(
        book.apply_delta(Delta { first_sequence: 1, last_sequence: 1, bids: vec![], asks: vec![] }),
        Err(BookError::NeedsSnapshot)
    );
    book.apply_snapshot(Snapshot {
        sequence: 5,
        bids: vec![(price(98), 1), (price(99), 2)],
        asks: vec![(price(102), 3), (price(101), 4)],
    })
    .unwrap();
    assert_eq!(book.best_bid(), Some((price(99), 2)));
    assert_eq!(book.best_ask(), Some((price(101), 4)));
    assert!(book.is_valid());
    assert!(book.is_tradable());
    assert_eq!(
        book.apply_delta(Delta { first_sequence: 6, last_sequence: 5, bids: vec![], asks: vec![] }),
        Err(BookError::InvalidSequenceRange { first: 6, last: 5 })
    );
    book.apply_snapshot(Snapshot { sequence: 7, bids: vec![(price(99), 2)], asks: vec![(price(101), 4)] }).unwrap();
    assert_eq!(
        book.apply_delta(Delta { first_sequence: 8, last_sequence: 8, bids: vec![(price(99), -1)], asks: vec![] }),
        Err(BookError::InvalidLevelQty(-1))
    );
    assert!(!book.is_valid());
}

#[test]
fn overlapping_delta_is_accepted() {
    let mut book = OrderBook::default();
    book.apply_snapshot(Snapshot { sequence: 10, bids: vec![(price(99), 2)], asks: vec![(price(101), 3)] })
        .unwrap();
    book.apply_delta(Delta { first_sequence: 9, last_sequence: 12, bids: vec![(price(99), 0)], asks: vec![] })
        .unwrap();
    assert_eq!(book.last_sequence(), Some(12));
    assert_eq!(book.best_bid(), None);
    assert!(book.is_structurally_valid());
    assert!(!book.is_tradable());
}

#[test]
fn book_errors_have_messages() {
    assert_eq!(BookError::InvalidLevelQty(-1).message(), "level quantity cannot be negative: -1");
    assert_eq!(BookError::InvalidSequenceRange { first: 6, last: 5 }.message(), "invalid sequence range: 6..=5");
    assert_eq!(
        BookError::SequenceGap { expected: 11, received: 12 }.message(),
        "sequence gap: expected 11, received 12"
    );
    assert_eq!(
        BookError::CrossedBook { best_bid: 102, best_ask: 101 }.message(),
        "crossed book: best bid 102, best ask 101"
    );
    assert_eq!(BookError::NeedsSnapshot.message(), "book needs a fresh snapshot");
}

#[test]
fn orders_with_the_same_executions_compare_equal_whatever_the_arrival_order() {
    let id = ClientOrderId::new("o");
    let total = QtyLots::new(10).unwrap();
    let one = QtyLots::new(1).unwrap();
    let a = reduce(Order::pending(id.clone(), total), OrderEvent::Fill { key: key("x"), qty: one }).unwrap();
    let a = reduce(a, OrderEvent::Fill { key: key("y"), qty: one }).unwrap();
    let b = reduce(Order::pending(id, total), OrderEvent::Fill { key: key("y"), qty: one }).unwrap();
    let b = reduce(b, OrderEvent::Fill { key: key("x"), qty: one }).unwrap();
    assert_eq!(a, b);
    assert_eq!(a.clone(), a);
    assert!(a.has_execution(&key("x")));
    assert!(!a.has_execution(&key("z")));
    assert_eq!(a.filled_qty(), 2);
    assert_eq!(a.total_qty(), total);
    assert_eq!(a.client_order_id(), &ClientOrderId::new("o"));
}

#[test]
fn reducer_refuses_illegal_transitions() {
    let order = Order::pending(ClientOrderId::new("r"), QtyLots::new(3).unwrap());
    let rejected = reduce(order, OrderEvent::Reject).unwrap();
    assert_eq!(rejected.status(), OrderStatus::Rejected);
    assert!(rejected.status().is_terminal());
    assert_eq!(
        reduce(rejected, OrderEvent::Fill { key: key("f"), qty: QtyLots::new(1).unwrap() }).unwrap_err(),
        ReduceError::IllegalTransition
    );
    let pending = Order::pending(ClientOrderId::new("r2"), QtyLots::new(3).unwrap());
    assert_eq!(reduce(pending, OrderEvent::CancelRequested).unwrap_err(), ReduceError::IllegalTransition);
    assert_eq!(ReduceError::IllegalTransition.message(), "illegal order state transition");
    assert_eq!(
        ReduceError::Overfill { total: 3, attempted: 4 }.message(),
        "fill exceeds order quantity: total 3, attempted 4"
    );
}

#[test]
fn a_cloned_book_answers_like_the_original() {
    let mut book = OrderBook::default();
    book.apply_snapshot(Snapshot { sequence: 3, bids: vec![(price(99), 2)], asks: vec![(price(101), 1)] }).unwrap();
    let copy = book.clone();
    assert_eq!(copy.best_bid(), book.best_bid());
    assert_eq!(copy.best_ask(), book.best_ask());
    assert_eq!(copy.last_sequence(), Some(3));
    assert!(copy.is_valid());
}

#[test]
fn reachable_orders_are_filled_exactly_when_complete() {
    let one = QtyLots::new(1).unwrap();
    let order = Order::pending(ClientOrderId::new("c"), QtyLots::new(2).unwrap());
    let order = reduce(order, OrderEvent::Fill { key: key("1"), qty: one }).unwrap();
    assert_eq!(order.status(), OrderStatus::PartiallyFilled);
    let order = reduce(order, OrderEvent::Timeout).unwrap();
    assert_eq!(order.status(), OrderStatus::Uncertain);
    assert_eq!(reduce(order.clone(), OrderEvent::Reject).unwrap_err(), ReduceError::IllegalTransition);
    let order = reduce(order, OrderEvent::Fill { key: key("2"), qty: one }).unwrap();
    assert_eq!(order.status(), OrderStatus::Filled);
    assert_eq!(order.filled_qty(), 2);
}
