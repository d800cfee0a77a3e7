use quant_engine::domain::{DomainError, PriceTicks, QtyLots};

#[test]
fn rejects_invalid_units() {
    assert_eq!(PriceTicks::new(0), Err(DomainError::NonPositivePrice));
    assert_eq!(QtyLots::new(-1), Err(DomainError::NonPositiveQuantity));
}

#[test]
fn positive_units_keep_their_value() {
    assert_eq!(PriceTicks::new(1).unwrap().get(), 1);
    assert_eq!(QtyLots::new(i64::MAX).unwrap().get(), i64::MAX);
    assert_eq!(PriceTicks::new(-5), Err(DomainError::NonPositivePrice));
    assert_eq!(QtyLots::new(0), Err(DomainError::NonPositiveQuantity));
}

#[test]
fn unit_errors_have_messages() {
    assert_eq!(DomainError::NonPositivePrice.message(), "price ticks must be positive");
    assert_eq!(DomainError::NonPositiveQuantity.message(), "quantity lots must be positive");
}
