use std::collections::{BTreeMap, BTreeSet};

use adam_core::demand::NeedTier;
use adam_core::event::DomainEvent;
use adam_core::ids::{CohortId, CountryId, FirmId, GoodId, RegionId};
use adam_core::market::{MarketClearing, MarketOffer, MarketOfferOutcome, MarketOrder};
use adam_core::relief::{EmergencyReliefStrategy, GovernmentEmergencyPolicy, PhysicalShortageStrategy};
use adam_core::rng::WorldSeed;
use adam_core::time::SimDate;
use adam_core::value::{Money, Population, QuantityMilli};
use adam_core::world::{Country, Region, World, WorldError};

fn world(rationing: bool) -> World {
    let mut world = World::new(WorldSeed::new(5), SimDate::new(2025, 1).expect("date"));
    world
        .register_country(Country::new(CountryId::new(1), "Union").expect("country"))
        .expect("country");
    world
        .register_region(
            Region::new(
                RegionId::new(1),
                CountryId::new(1),
                "Harbor",
                Population::new(1_000),
                Money::from_minor_units(10_000),
            )
            .expect("region"),
        )
        .expect("region");
    if rationing {
        world.government_emergency_policies.insert(
            1,
            GovernmentEmergencyPolicy::new(EmergencyReliefStrategy::TreasuryOnly)
                .with_physical_shortage_strategy(PhysicalShortageStrategy::ProportionalRationing),
        );
    }
    world
}

fn survival(cohort: u32, region: u32, quantity: u64) -> MarketOrder {
    MarketOrder {
        buyer: CohortId::new(cohort),
        tier: NeedTier::Survival,
        region: RegionId::new(region),
        good: GoodId::new(1),
        quantity: QuantityMilli::new(quantity),
        max_spend: Money::from_minor_units(1_000_000),
    }
}

fn offer(quantity: u64) -> MarketOffer {
    MarketOffer {
        seller: FirmId::new(1),
        region: RegionId::new(1),
        good: GoodId::new(1),
        quantity: QuantityMilli::new(quantity),
        unit_price: Money::from_minor_units(10),
    }
}

fn quantities(orders: &[MarketOrder]) -> Vec<u64> {
    orders.iter().map(|order| order.quantity.get()).collect()
}

#[test]
fn equal_claims_split_the_leftover_unit_to_the_smaller_cohort() {
    let mut world = world(true);
    let mut orders = vec![survival(3, 1, 1_000), survival(1, 1, 1_000), survival(2, 1, 1_000)];
    let outcomes = world
        .apply_survival_rationing(&mut orders, &[offer(1_000)])
        .expect("rationing");
    assert_eq!(quantities(&orders), vec![333, 334, 333]);
    assert_eq!(outcomes.len(), 1);
    let outcome = &outcomes[0];
    assert_eq!(outcome.requested, QuantityMilli::new(3_000));
    assert_eq!(outcome.available, QuantityMilli::new(1_000));
    let total: u64 = outcome.allocations.iter().map(|a| a.quota.get()).sum();
    assert_eq!(total, 1_000);
    assert!(matches!(
        world.events().events().last().expect("event").event(),
        DomainEvent::SurvivalRationingApplied { cohorts: 3, .. }
    ));
}

#[test]
fn the_larger_remainder_receives_the_leftover_unit() {
    let mut world = world(true);
    let mut orders = vec![survival(1, 1, 500), survival(2, 1, 1_500)];
    world
        .apply_survival_rationing(&mut orders, &[offer(600), offer(401)])
        .expect("rationing");
    assert_eq!(quantities(&orders), vec![250, 751]);
}

#[test]
fn market_priority_policy_leaves_orders_untouched() {
    let mut world = world(false);
    let before_events = world.events().events().len();
    let mut orders = vec![survival(1, 1, 1_000), survival(2, 1, 1_000)];
    let outcomes = world
        .apply_survival_rationing(&mut orders, &[offer(500)])
        .expect("no rationing");
    assert!(outcomes.is_empty());
    assert_eq!(quantities(&orders), vec![1_000, 1_000]);
    assert_eq!(world.events().events().len(), before_events);
}

#[test]
fn sufficient_supply_is_not_rationed() {
    let mut world = world(true);
    let mut orders = vec![survival(1, 1, 400), survival(2, 1, 600)];
    let outcomes = world
        .apply_survival_rationing(&mut orders, &[offer(1_000)])
        .expect("no rationing");
    assert!(outcomes.is_empty());
    assert_eq!(quantities(&orders), vec![400, 600]);
}

#[test]
fn unknown_region_fails_without_changes() {
    let mut world = world(true);
    let before = world.clone();
    let mut orders = vec![survival(1, 1, 1_000), survival(2, 9, 1_000)];
    let result = world.apply_survival_rationing(&mut orders, &[offer(100)]);
    assert_eq!(result, Err(WorldError::UnknownRegion(RegionId::new(9))));
    assert_eq!(quantities(&orders), vec![1_000, 1_000]);
    assert_eq!(world, before);
}

#[test]
fn overflowing_supply_fails_without_changes() {
    let mut world = world(true);
    let mut orders = vec![survival(1, 1, 1_000)];
    let result = world.apply_survival_rationing(&mut orders, &[offer(u64::MAX), offer(1)]);
    assert_eq!(
        result,
        Err(WorldError::ArithmeticOverflow("rationable survival supply"))
    );
    assert_eq!(quantities(&orders), vec![1_000]);
}

#[test]
fn restored_demand_equals_the_shortfall() {
    let mut world = world(true);
    let mut orders = vec![survival(1, 1, 1_000), survival(2, 1, 1_000), survival(3, 1, 1_000)];
    let outcomes = world
        .apply_survival_rationing(&mut orders, &[offer(1_000)])
        .expect("rationing");
    let mut clearing = MarketClearing {
        fills: Vec::new(),
        unmet: BTreeMap::new(),
        offer_outcomes: vec![MarketOfferOutcome {
            seller: FirmId::new(1),
            region: RegionId::new(1),
            good: GoodId::new(1),
            unit_price: Money::from_minor_units(10),
            offered: QuantityMilli::new(1_000),
            sold: QuantityMilli::new(1_000),
            unsold: QuantityMilli::new(0),
            unmet_market_demand: QuantityMilli::new(0),
        }],
        constrained_routes: BTreeSet::new(),
    };
    world
        .restore_rationed_unmet_demand(&mut clearing, &outcomes)
        .expect("restored");
    assert_eq!(clearing.unmet[&(1, 1, 0)], QuantityMilli::new(666));
    assert_eq!(clearing.unmet[&(2, 1, 0)], QuantityMilli::new(667));
    assert_eq!(clearing.unmet[&(3, 1, 0)], QuantityMilli::new(667));
    assert_eq!(
        clearing.offer_outcomes[0].unmet_market_demand,
        QuantityMilli::new(2_000)
    );
}
