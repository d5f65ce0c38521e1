use adam_core::public_services::{move_toward, RegionalPublicServices};
use adam_core::value::BasisPoints;

fn bp(value: u16) -> BasisPoints {
    BasisPoints::new(value).expect("service level")
}

#[test]
fn administrative_capacity_limits_service_recovery() {
    let services = RegionalPublicServices::default().adjusted_toward_funding(BasisPoints::full());
    assert_eq!(services.administration().get(), 5_250);
    assert_eq!(services.healthcare().get(), 5_500);
    assert_eq!(services.infrastructure().get(), 5_500);
}

#[test]
fn underfunded_services_decline_by_bounded_steps() {
    let services = RegionalPublicServices::default().adjusted_toward_funding(bp(1_000));
    assert_eq!(services.administration().get(), 4_750);
    assert_eq!(services.healthcare().get(), 4_500);
    assert_eq!(services.infrastructure().get(), 4_500);
}

#[test]
fn movement_stops_at_the_target() {
    assert_eq!(move_toward(bp(4_900), bp(5_000), 250).get(), 5_000);
    assert_eq!(move_toward(bp(5_100), bp(5_000), 250).get(), 5_000);
    assert_eq!(move_toward(bp(9_900), BasisPoints::full(), 500).get(), 10_000);
    assert_eq!(move_toward(bp(100), BasisPoints::zero(), 500).get(), 0);
}
