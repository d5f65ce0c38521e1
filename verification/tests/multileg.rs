use adam_core::ids::{GoodId, RegionId, RouteId, ShipmentId};
use adam_core::logistics::{LogisticsRoute, ShipmentOrder, TransportMode};
use adam_core::multileg::plan_multileg_shipment;
use adam_core::value::{Money, QuantityMilli};
use adam_core::world::WorldError;

fn route(id: u32, from: u32, to: u32, cost: i64, days: u16) -> LogisticsRoute {
    LogisticsRoute::new(
        RouteId::new(id),
        RegionId::new(from),
        RegionId::new(to),
        TransportMode::Rail,
        QuantityMilli::new(5_000),
        Money::from_minor_units(cost),
        days,
        9_500,
    )
    .expect("route")
}

fn order(from: u32, to: u32, budget: i64) -> ShipmentOrder {
    ShipmentOrder::new(
        ShipmentId::new(2),
        GoodId::new(1),
        RegionId::new(from),
        RegionId::new(to),
        QuantityMilli::new(1_000),
        Money::from_minor_units(budget),
    )
}

#[test]
fn multi_leg_route_connects_regions_without_direct_service() {
    let order = order(1, 3, 100);
    let routes = vec![
        LogisticsRoute::new(
            RouteId::new(1),
            RegionId::new(1),
            RegionId::new(2),
            TransportMode::Rail,
            QuantityMilli::new(5000),
            Money::from_minor_units(10),
            2,
            9500,
        )
        .expect("route"),
        LogisticsRoute::new(
            RouteId::new(2),
            RegionId::new(2),
            RegionId::new(3),
            TransportMode::Road,
            QuantityMilli::new(5000),
            Money::from_minor_units(20),
            3,
            9000,
        )
        .expect("route"),
    ];
    let plan = plan_multileg_shipment(&order, &routes, 3).expect("plan");
    assert_eq!(plan.routes, vec![RouteId::new(1), RouteId::new(2)]);
    assert_eq!(plan.arrival_days, 5);
    assert_eq!(plan.total_cost, Money::from_minor_units(30));
    assert_eq!(plan.shipment, ShipmentId::new(2));
}

#[test]
fn the_cheapest_path_wins_even_with_more_legs() {
    let routes = vec![
        route(9, 1, 3, 50, 1),
        route(4, 1, 2, 10, 4),
        route(5, 2, 3, 10, 4),
    ];
    let plan = plan_multileg_shipment(&order(1, 3, 100), &routes, 3).expect("plan");
    assert_eq!(plan.routes, vec![RouteId::new(4), RouteId::new(5)]);
    assert_eq!(plan.total_cost, Money::from_minor_units(20));
    assert_eq!(plan.arrival_days, 8);
    let direct_only = plan_multileg_shipment(&order(1, 3, 100), &routes, 1).expect("plan");
    assert_eq!(direct_only.routes, vec![RouteId::new(9)]);
    assert_eq!(direct_only.arrival_days, 1);
}

#[test]
fn equal_costs_prefer_smaller_route_ids() {
    let routes = vec![
        route(7, 1, 2, 10, 1),
        route(3, 2, 4, 10, 1),
        route(2, 1, 3, 10, 1),
        route(8, 3, 4, 10, 1),
    ];
    let plan = plan_multileg_shipment(&order(1, 4, 100), &routes, 2).expect("plan");
    assert_eq!(plan.routes, vec![RouteId::new(2), RouteId::new(8)]);
}

#[test]
fn budget_legs_and_capacity_limit_the_search() {
    let routes = vec![route(1, 1, 2, 10, 1), route(2, 2, 3, 20, 1)];
    assert_eq!(
        plan_multileg_shipment(&order(1, 3, 29), &routes, 3),
        Err(WorldError::NoFeasibleLogisticsRoute(ShipmentId::new(2)))
    );
    assert_eq!(
        plan_multileg_shipment(&order(1, 3, 100), &routes, 1),
        Err(WorldError::NoFeasibleLogisticsRoute(ShipmentId::new(2)))
    );
    assert_eq!(
        plan_multileg_shipment(&order(1, 3, 100), &routes, 0),
        Err(WorldError::NoFeasibleLogisticsRoute(ShipmentId::new(2)))
    );
    let heavy = ShipmentOrder::new(
        ShipmentId::new(2),
        GoodId::new(1),
        RegionId::new(1),
        RegionId::new(3),
        QuantityMilli::new(6_000),
        Money::from_minor_units(1_000),
    );
    assert_eq!(
        plan_multileg_shipment(&heavy, &routes, 3),
        Err(WorldError::NoFeasibleLogisticsRoute(ShipmentId::new(2)))
    );
}

#[test]
fn a_shipment_already_at_its_destination_needs_no_route() {
    let plan = plan_multileg_shipment(&order(1, 1, 0), &[], 2).expect("plan");
    assert!(plan.routes.is_empty());
    assert_eq!(plan.arrival_days, 0);
    assert_eq!(plan.total_cost, Money::zero());
}

#[test]
fn regions_are_never_entered_twice() {
    let routes = vec![
        route(1, 1, 2, 1, 1),
        route(2, 2, 1, 1, 1),
        route(3, 2, 3, 1, 1),
    ];
    let plan = plan_multileg_shipment(&order(1, 3, 100), &routes, 10).expect("plan");
    assert_eq!(plan.routes, vec![RouteId::new(1), RouteId::new(3)]);
}

#[test]
fn unrepresentable_freight_is_an_error() {
    let routes = vec![route(1, 1, 2, i64::MAX, 1)];
    let huge = ShipmentOrder::new(
        ShipmentId::new(2),
        GoodId::new(1),
        RegionId::new(1),
        RegionId::new(2),
        QuantityMilli::new(5_000),
        Money::from_minor_units(100),
    );
    assert_eq!(
        plan_multileg_shipment(&huge, &routes, 2),
        Err(WorldError::ArithmeticOverflow("multi-leg shipment cost"))
    );
}
