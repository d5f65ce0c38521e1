use std::collections::{BTreeMap, BTreeSet};

use adam_core::demand::Good;
use adam_core::event::{DomainEvent, EventLog};
use adam_core::ids::{CohortId, CountryId, FirmId, GoodId, RecipeId, RegionId, RouteId};
use adam_core::logistics::{LogisticsRoute, TransportMode};
use adam_core::production::{Firm, ProductionRecipe};
use adam_core::rng::WorldSeed;
use adam_core::time::SimDate;
use adam_core::value::{Money, Population, QuantityMilli};
use adam_core::world::{Country, Region, World, WorldError};

fn expansion_world(cash: i64) -> World {
    let mut world = World::new(WorldSeed::new(50), SimDate::new(2025, 1).expect("date"));
    world
        .register_country(Country::new(CountryId::new(1), "A").expect("country"))
        .expect("country");
    world
        .register_good(Good::new(GoodId::new(1), "Freight proxy").expect("good"))
        .expect("good");
    world
        .register_production_recipe(
            ProductionRecipe::new(
                RecipeId::new(1),
                "Idle carrier recipe",
                GoodId::new(1),
                QuantityMilli::new(1_000),
                1,
                vec![],
            )
            .expect("recipe"),
        )
        .expect("recipe");
    for (id, name) in [(1, "Origin"), (2, "Destination")] {
        world
            .register_region(
                Region::new(
                    RegionId::new(id),
                    CountryId::new(1),
                    name,
                    Population::new(0),
                    Money::zero(),
                )
                .expect("region"),
            )
            .expect("region");
    }
    world
        .register_firm(
            Firm::new(
                FirmId::new(1),
                "Carrier",
                RegionId::new(1),
                RecipeId::new(1),
                0,
                0,
                Money::from_minor_units(cash),
                BTreeMap::new(),
            )
            .expect("carrier"),
        )
        .expect("carrier");
    world
        .register_logistics_route(
            LogisticsRoute::new(
                RouteId::new(1),
                RegionId::new(1),
                RegionId::new(2),
                TransportMode::Road,
                QuantityMilli::new(1_000),
                Money::from_minor_units(10),
                1,
                10_000,
            )
            .expect("route")
            .with_carrier(FirmId::new(1)),
        )
        .expect("route");
    let date = world.date;
    world.events.append(
        date,
        DomainEvent::FirmProcurementFreightPaid {
            buyer: FirmId::new(2),
            seller: FirmId::new(3),
            carrier: FirmId::new(1),
            route: RouteId::new(1),
            amount: Money::from_minor_units(10),
        },
    );
    world
}

#[test]
fn three_revenue_producing_constrained_months_fund_bounded_expansion() {
    let mut direct = expansion_world(100);
    let mut replayed = direct.clone();
    let constrained = BTreeSet::from([1]);
    for expected in [1, 2] {
        assert!(direct
            .respond_to_route_capacity_pressure(&constrained)
            .expect("pressure")
            .is_empty());
        assert!(replayed
            .respond_to_route_capacity_pressure(&constrained)
            .expect("replayed pressure")
            .is_empty());
        assert_eq!(direct.route_capacity_pressure()[&1], expected);
    }
    let expansions = direct
        .respond_to_route_capacity_pressure(&constrained)
        .expect("expansion");
    let replayed_expansions = replayed
        .respond_to_route_capacity_pressure(&constrained)
        .expect("replayed expansion");
    assert_eq!(expansions, replayed_expansions);
    assert_eq!(expansions.len(), 1);
    assert_eq!(expansions[0].previous_capacity, QuantityMilli::new(1_000));
    assert_eq!(expansions[0].added_capacity, QuantityMilli::new(100));
    assert_eq!(expansions[0].cost, Money::from_minor_units(12));
    assert_eq!(direct.logistics_routes()[&1].capacity(), QuantityMilli::new(1_100));
    assert_eq!(direct.firms()[&1].cash(), Money::from_minor_units(88));
    assert!(direct.route_capacity_pressure().is_empty());
    assert!(direct.events().events().iter().any(|event| matches!(
        event.event(),
        DomainEvent::RouteCapacityExpanded {
            route,
            carrier,
            previous_capacity,
            added_capacity,
            cost,
        } if *route == RouteId::new(1)
            && *carrier == FirmId::new(1)
            && *previous_capacity == QuantityMilli::new(1_000)
            && *added_capacity == QuantityMilli::new(100)
            && *cost == Money::from_minor_units(12)
    )));
    assert_eq!(direct, replayed);
    assert_eq!(direct.stable_fingerprint(), replayed.stable_fingerprint());
}

#[test]
fn pressure_requires_revenue_and_available_carrier_cash() {
    let constrained = BTreeSet::from([1]);
    let mut no_revenue = expansion_world(100);
    no_revenue.events = EventLog::new();
    assert!(no_revenue
        .respond_to_route_capacity_pressure(&constrained)
        .expect("no revenue")
        .is_empty());
    assert!(no_revenue.route_capacity_pressure().is_empty());

    let mut no_cash = expansion_world(0);
    for _ in 0..3 {
        assert!(no_cash
            .respond_to_route_capacity_pressure(&constrained)
            .expect("no cash")
            .is_empty());
    }
    assert_eq!(no_cash.route_capacity_pressure()[&1], 3);
    assert_eq!(no_cash.logistics_routes()[&1].capacity(), QuantityMilli::new(1_000));
}

#[test]
fn only_freight_paid_today_on_the_route_counts() {
    let mut world = expansion_world(100);
    let date = world.date;
    world.events.append(
        date,
        DomainEvent::MarketFreightPaid {
            buyer: CohortId::new(1),
            seller: FirmId::new(2),
            carrier: FirmId::new(1),
            route: RouteId::new(1),
            amount: Money::from_minor_units(5),
        },
    );
    world.events.append(
        date,
        DomainEvent::FirmProcurementFreightPaid {
            buyer: FirmId::new(2),
            seller: FirmId::new(3),
            carrier: FirmId::new(1),
            route: RouteId::new(9),
            amount: Money::from_minor_units(40),
        },
    );
    assert_eq!(world.current_route_freight_revenue(1), 15);
    assert_eq!(world.current_route_freight_revenue(9), 40);
    let mut later = date;
    later.advance_one_month().expect("month");
    world.date = later;
    assert_eq!(world.current_route_freight_revenue(1), 0);
}

#[test]
fn unconstrained_routes_lose_their_pressure() {
    let mut world = expansion_world(100);
    let constrained = BTreeSet::from([1]);
    world.respond_to_route_capacity_pressure(&constrained).expect("pressure");
    assert_eq!(world.route_capacity_pressure()[&1], 1);
    world.respond_to_route_capacity_pressure(&BTreeSet::new()).expect("relief");
    assert!(world.route_capacity_pressure().is_empty());
}

#[test]
fn a_route_without_a_carrier_cannot_be_widened() {
    let mut world = expansion_world(100);
    let bare = LogisticsRoute::new(
        RouteId::new(1),
        RegionId::new(1),
        RegionId::new(2),
        TransportMode::Rail,
        QuantityMilli::new(1_000),
        Money::from_minor_units(10),
        1,
        10_000,
    )
    .expect("route");
    world.logistics_routes.insert(1, bare);
    world.route_capacity_pressure.insert(1, 2);
    assert_eq!(
        world.respond_to_route_capacity_pressure(&BTreeSet::from([1])),
        Err(WorldError::InvalidLogistics("route expansion requires a carrier"))
    );
    assert_eq!(world.route_capacity_pressure()[&1], 3);
}
