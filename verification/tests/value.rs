use adam_core::value::{BasisPoints, Money, Population, QuantityMilli, RatePpm, ValueError};

#[test]
fn canonical_values_have_expected_layout() {
    assert_eq!(std::mem::size_of::<Population>(), 8);
    assert_eq!(std::mem::size_of::<Money>(), 8);
    assert_eq!(std::mem::size_of::<BasisPoints>(), 2);
    assert_eq!(std::mem::size_of::<RatePpm>(), 4);
    assert_eq!(std::mem::size_of::<QuantityMilli>(), 8);
}

#[test]
fn bounded_values_reject_invalid_ranges() {
    assert_eq!(
        BasisPoints::new(10_001),
        Err(ValueError::BasisPointsOutOfRange(10_001))
    );
    assert_eq!(
        RatePpm::new(1_000_001),
        Err(ValueError::RatePpmOutOfRange(1_000_001))
    );
}

#[test]
fn basis_point_shifts_saturate_at_physical_bounds() {
    assert_eq!(
        BasisPoints::new(9_900).expect("valid").shifted(500).get(),
        10_000
    );
    assert_eq!(BasisPoints::new(100).expect("valid").shifted(-500).get(), 0);
}

#[test]
fn arithmetic_is_explicitly_checked() {
    assert_eq!(
        Population::new(u64::MAX).checked_add(Population::new(1)),
        None
    );
    assert_eq!(
        Money::from_minor_units(i64::MAX).checked_add(Money::from_minor_units(1)),
        None
    );
}

#[test]
fn bounded_constructors_accept_their_whole_range() {
    assert_eq!(BasisPoints::new(10_000).expect("full").get(), 10_000);
    assert_eq!(BasisPoints::new(0).expect("zero").get(), 0);
    assert_eq!(RatePpm::new(-1_000_000).expect("rate").get(), -1_000_000);
    assert_eq!(
        Population::new(2).checked_add(Population::new(3)),
        Some(Population::new(5))
    );
}
