use quant_engine::domain::{ClientOrderId, QtyLots, Side};
use quant_engine::execution::{ExecutionError, ParentExecution};

fn qty(value: i64) -> QtyLots {
    QtyLots::new(value).unwrap()
}

#[test]
fn pending_cancel_still_consumes_parent_capacity() {
    let mut parent = ParentExecution::new(Side::Buy, qty(10));
    let maker = ClientOrderId::new("maker-1");
    parent.register_child(maker.clone(), qty(4)).unwrap();
    parent.apply_confirmed_fill(&maker, qty(1)).unwrap();
    parent.request_cancel(&maker).unwrap();

    assert_eq!(parent.confirmed_filled_lots(), 1);
    assert_eq!(parent.open_risk_lots(), 3);
    assert_eq!(parent.new_child_capacity_lots(), 6);
    assert_eq!(
        parent.register_child(ClientOrderId::new("taker-too-large"), qty(9)),
        Err(ExecutionError::ChildExceedsRemaining { requested: 9, available: 6 })
    );

    parent.confirm_cancel(&maker).unwrap();
    assert_eq!(parent.open_risk_lots(), 0);
    assert_eq!(parent.new_child_capacity_lots(), 9);
}

#[test]
fn parent_refuses_duplicates_unknown_children_and_overfills() {
    let mut parent = ParentExecution::new(Side::Sell, qty(5));
    let a = ClientOrderId::new("a");
    parent.register_child(a.clone(), qty(3)).unwrap();
    assert_eq!(parent.register_child(a.clone(), qty(1)), Err(ExecutionError::DuplicateChild(a.clone())));
    let ghost = ClientOrderId::new("ghost");
    assert_eq!(parent.apply_confirmed_fill(&ghost, qty(1)), Err(ExecutionError::UnknownChild(ghost.clone())));
    assert_eq!(
        parent.apply_confirmed_fill(&a, qty(4)),
        Err(ExecutionError::ChildOverfill { original: 3, attempted: 4 })
    );
    parent.apply_confirmed_fill(&a, qty(3)).unwrap();
    assert_eq!(parent.confirmed_filled_lots(), 3);
    assert_eq!(parent.open_risk_lots(), 0);
    assert_eq!(parent.request_cancel(&a), Err(ExecutionError::ChildNotActive(a.clone())));
    assert_eq!(parent.new_child_capacity_lots(), 2);
    assert_eq!(parent.target_lots(), 5);
}

#[test]
fn execution_errors_have_messages() {
    let id = ClientOrderId::new("c-9");
    assert_eq!(ExecutionError::DuplicateChild(id.clone()).message(), "duplicate child order: c-9");
    assert_eq!(ExecutionError::UnknownChild(id.clone()).message(), "unknown child order: c-9");
    assert_eq!(ExecutionError::ChildNotActive(id).message(), "child order is not active: c-9");
    assert_eq!(
        ExecutionError::ChildExceedsRemaining { requested: 9, available: 6 }.message(),
        "child quantity exceeds parent capacity: requested=9, available=6"
    );
    assert_eq!(
        ExecutionError::ChildOverfill { original: 3, attempted: -4 }.message(),
        "child fill exceeds order quantity: original=3, attempted=-4"
    );
    assert_eq!(
        ExecutionError::ParentOverfill { target: 10, attempted: 11 }.message(),
        "confirmed fills exceed parent target: target=10, attempted=11"
    );
}

#[test]
fn parent_reports_its_side() {
    assert_eq!(ParentExecution::new(Side::Sell, qty(3)).side(), Side::Sell);
    assert_eq!(ParentExecution::new(Side::Buy, qty(3)).side(), Side::Buy);
}
