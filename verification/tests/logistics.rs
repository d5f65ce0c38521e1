use std::collections::BTreeMap;

use adam_core::demand::Good;
use adam_core::ids::{CountryId, FirmId, GoodId, RecipeId, RegionId, RouteId, ShipmentId};
use adam_core::production::{Firm, ProductionRecipe};
use adam_core::rng::WorldSeed;
use adam_core::time::SimDate;
use adam_core::logistics::{
    plan_direct_shipment, LogisticsRoute, MultiLegShipmentPlan, RouteCapacityLedger,
    ShipmentLifecycle, ShipmentOrder, ShipmentStatus, TransportMode,
};
use adam_core::value::{Money, Population, QuantityMilli};
use adam_core::world::{Country, Region, World, WorldError};

#[test]
fn cheapest_feasible_route_wins() {
    let order = ShipmentOrder::new(
        ShipmentId::new(1),
        GoodId::new(1),
        RegionId::new(1),
        RegionId::new(2),
        QuantityMilli::new(10_000),
        Money::from_minor_units(1000),
    );
    let routes = vec![
        LogisticsRoute::new(
            RouteId::new(2),
            RegionId::new(1),
            RegionId::new(2),
            TransportMode::Road,
            QuantityMilli::new(20_000),
            Money::from_minor_units(20),
            2,
            9000,
        )
        .expect("route"),
        LogisticsRoute::new(
            RouteId::new(1),
            RegionId::new(1),
            RegionId::new(2),
            TransportMode::Rail,
            QuantityMilli::new(20_000),
            Money::from_minor_units(10),
            4,
            9500,
        )
        .expect("route"),
    ];
    assert_eq!(
        plan_direct_shipment(&order, &routes).expect("plan").route,
        RouteId::new(1)
    );
}

#[test]
fn shared_capacity_is_reserved_and_released() {
    let route = LogisticsRoute::new(
        RouteId::new(1),
        RegionId::new(1),
        RegionId::new(2),
        TransportMode::Rail,
        QuantityMilli::new(1000),
        Money::from_minor_units(10),
        2,
        9500,
    )
    .expect("route");
    let plan = MultiLegShipmentPlan {
        shipment: ShipmentId::new(3),
        routes: vec![RouteId::new(1)],
        total_cost: Money::from_minor_units(10),
        arrival_days: 2,
    };
    let mut ledger = RouteCapacityLedger::default();
    let mut shipment = ShipmentLifecycle::from_plan(&plan, QuantityMilli::new(700));
    shipment
        .start(&mut ledger, std::slice::from_ref(&route))
        .expect("start");
    assert_eq!(ledger.reserved()[&1].get(), 700);
    assert!(ledger
        .reserve(&plan, QuantityMilli::new(400), std::slice::from_ref(&route))
        .is_err());
    shipment.advance_days(2, &mut ledger).expect("deliver");
    assert!(ledger.reserved().is_empty());
    assert_eq!(shipment.status(), ShipmentStatus::Delivered);
}

#[test]
fn direct_planning_reports_a_missing_route_and_a_tight_budget() {
    let route = LogisticsRoute::new(
        RouteId::new(7),
        RegionId::new(1),
        RegionId::new(2),
        TransportMode::Sea,
        QuantityMilli::new(5_000),
        Money::from_minor_units(30),
        6,
        9000,
    )
    .expect("route");
    let cheap = ShipmentOrder::new(
        ShipmentId::new(4),
        GoodId::new(1),
        RegionId::new(1),
        RegionId::new(2),
        QuantityMilli::new(2_000),
        Money::from_minor_units(60),
    );
    let plan = plan_direct_shipment(&cheap, std::slice::from_ref(&route)).expect("plan");
    assert_eq!(plan.total_cost, Money::from_minor_units(60));
    assert_eq!(plan.arrival_days, 6);
    let tight = ShipmentOrder::new(
        ShipmentId::new(5),
        GoodId::new(1),
        RegionId::new(1),
        RegionId::new(2),
        QuantityMilli::new(2_000),
        Money::from_minor_units(59),
    );
    assert_eq!(
        plan_direct_shipment(&tight, std::slice::from_ref(&route)),
        Err(WorldError::NoFeasibleLogisticsRoute(ShipmentId::new(5)))
    );
}

#[test]
fn the_cheapest_direct_route_carries_imports() {
    let mut world = World::new(WorldSeed::new(4), SimDate::new(2025, 1).expect("date"));
    world
        .register_country(Country::new(CountryId::new(1), "A").expect("country"))
        .expect("country");
    world.register_good(Good::new(GoodId::new(1), "Ore").expect("good")).expect("good");
    world
        .register_production_recipe(
            ProductionRecipe::new(RecipeId::new(1), "R", GoodId::new(1), QuantityMilli::new(1_000), 1, vec![])
                .expect("recipe"),
        )
        .expect("recipe");
    for id in [1, 2] {
        world
            .register_region(
                Region::new(RegionId::new(id), CountryId::new(1), "Region", Population::new(0), Money::zero())
                    .expect("region"),
            )
            .expect("region");
    }
    world
        .register_firm(
            Firm::new(FirmId::new(1), "Carrier", RegionId::new(1), RecipeId::new(1), 0, 0, Money::zero(), BTreeMap::new())
                .expect("firm"),
        )
        .expect("firm");
    for (id, cost) in [(3, 12), (5, 9), (7, 9)] {
        world
            .register_logistics_route(
                LogisticsRoute::new(
                    RouteId::new(id),
                    RegionId::new(2),
                    RegionId::new(1),
                    TransportMode::Road,
                    QuantityMilli::new(1_000),
                    Money::from_minor_units(cost),
                    1,
                    10_000,
                )
                .expect("route")
                .with_carrier(FirmId::new(1)),
            )
            .expect("route");
    }
    assert_eq!(
        world.direct_market_route(RegionId::new(2), RegionId::new(1)),
        Some((RouteId::new(5), Money::from_minor_units(9)))
    );
    assert_eq!(world.direct_market_route(RegionId::new(1), RegionId::new(2)), None);
    assert_eq!(world.direct_market_route(RegionId::new(2), RegionId::new(8)), None);
    let table = world.delivery_table();
    assert_eq!(table.len(), 1);
    assert_eq!(table[&(2, 1)], (RouteId::new(5), Money::from_minor_units(9)));
}
