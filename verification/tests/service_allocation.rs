use std::collections::BTreeMap;

use adam_core::ids::{ActorId, CountryId, PowerNodeId, RegionId};
use adam_core::political_economy::RegionalSocialPressure;
use adam_core::rng::WorldSeed;
use adam_core::service_allocation::{
    allocate_integer_budget, normalize_weights, CountryServiceAllocation,
    ServiceAllocationInfluenceKind, ServiceAllocationSource,
};
use adam_core::time::SimDate;
use adam_core::value::{BasisPoints, Money, Population};
use adam_core::world::{
    Actor, Country, Influence, PowerNode, PowerNodeKind, Region, World, WorldError,
};

fn bp(value: u16) -> BasisPoints {
    BasisPoints::new(value).expect("share")
}

#[test]
fn explicit_allocation_may_give_everything_to_one_region() {
    let allocation =
        CountryServiceAllocation::new(BTreeMap::from([(1, BasisPoints::full()), (2, BasisPoints::zero())]))
            .expect("allocation");
    let budgets = allocate_integer_budget(101, allocation.shares());
    assert_eq!(budgets[&1], 101);
    assert_eq!(budgets[&2], 0);
}

#[test]
fn integer_budget_is_conserved_exactly() {
    let shares = BTreeMap::from([(1, bp(3_333)), (2, bp(3_333)), (3, bp(3_334))]);
    let budgets = allocate_integer_budget(10, &shares);
    assert_eq!(budgets.values().sum::<i128>(), 10);
    assert_eq!(budgets[&3], 4);
}

fn political_world() -> World {
    let mut world = World::new(WorldSeed::new(12), SimDate::new(2025, 1).expect("date"));
    world
        .register_country(Country::new(CountryId::new(1), "Union").expect("country"))
        .expect("country");
    for id in 1..=2 {
        world
            .register_region(
                Region::new(
                    RegionId::new(id),
                    CountryId::new(1),
                    &format!("Region {id}"),
                    Population::new(100),
                    Money::from_minor_units(10_000),
                )
                .expect("region"),
            )
            .expect("region");
    }
    world
        .register_actor(
            Actor::new(ActorId::new(1), "President", RegionId::new(1), 1980).expect("actor"),
        )
        .expect("actor");
    world
        .register_power_node(
            PowerNode::new(
                PowerNodeId::new(1),
                CountryId::new(1),
                "Presidency",
                PowerNodeKind::PoliticalOffice,
                Some(ActorId::new(1)),
            )
            .expect("office"),
        )
        .expect("office");
    world
}

#[test]
fn authorized_office_holder_can_command_extreme_allocation() {
    let mut world = political_world();
    let allocation =
        CountryServiceAllocation::new(BTreeMap::from([(1, BasisPoints::full()), (2, BasisPoints::zero())]))
            .expect("allocation");
    world
        .set_country_service_allocation(ActorId::new(1), CountryId::new(1), allocation)
        .expect("authorized allocation");
    let (source, shares, budgets, influences) =
        world.plan_regional_service_budgets(CountryId::new(1), 101);
    assert_eq!(source, ServiceAllocationSource::ExplicitPoliticalDecision);
    assert_eq!(shares[&1], BasisPoints::full());
    assert_eq!(budgets[&1], 101);
    assert_eq!(budgets[&2], 0);
    assert!(influences.is_empty());
}

#[test]
fn unauthorized_allocation_is_atomic() {
    let mut world = political_world();
    let before = world.clone();
    let allocation = CountryServiceAllocation::new(BTreeMap::from([(1, BasisPoints::full())]))
        .expect("allocation");
    assert!(matches!(
        world.set_country_service_allocation(ActorId::new(2), CountryId::new(1), allocation),
        Err(WorldError::UnauthorizedGovernmentAction { .. })
    ));
    assert_eq!(world, before);
}

#[test]
fn autonomous_prudence_favors_observed_service_need_without_engine_caps() {
    let mut world = political_world();
    world
        .regional_social_pressure
        .insert(1, RegionalSocialPressure::from_components(0, 0, 1_000, 166));
    world
        .regional_social_pressure
        .insert(2, RegionalSocialPressure::from_components(0, 0, 9_000, 1_500));
    let (source, shares, budgets, influences) =
        world.plan_regional_service_budgets(CountryId::new(1), 100);
    assert_eq!(source, ServiceAllocationSource::AutonomousPrudent);
    assert!(shares[&2].get() > shares[&1].get());
    assert_eq!(
        shares.values().map(|share| u32::from(share.get())).sum::<u32>(),
        10_000
    );
    assert_eq!(budgets.values().sum::<i128>(), 100);
    assert!(influences
        .iter()
        .any(|evidence| evidence.kind == ServiceAllocationInfluenceKind::OfficeHolder));
}

#[test]
fn political_influence_biases_autonomous_allocation_toward_actor_home() {
    let mut world = political_world();
    world
        .register_actor(
            Actor::new(ActorId::new(2), "Industrial patron", RegionId::new(2), 1975)
                .expect("actor"),
        )
        .expect("actor");
    world
        .establish_influence(Influence::new(ActorId::new(2), PowerNodeId::new(1), bp(8_000)))
        .expect("influence");
    let (source, shares, budgets, evidence) =
        world.plan_regional_service_budgets(CountryId::new(1), 100);
    assert_eq!(source, ServiceAllocationSource::AutonomousPrudent);
    assert!(shares[&2].get() > shares[&1].get());
    assert_eq!(budgets.values().sum::<i128>(), 100);
    assert!(evidence.iter().any(|item| {
        item.actor == ActorId::new(2)
            && item.region == RegionId::new(2)
            && item.kind == ServiceAllocationInfluenceKind::InfluenceEdge
            && item.score_bonus == 4_000
    }));
}

#[test]
fn negative_budgets_allocate_nothing_and_ties_go_to_lower_regions() {
    let shares = BTreeMap::from([(1, bp(5_000)), (2, bp(5_000))]);
    let budgets = allocate_integer_budget(0, &shares);
    assert_eq!(budgets[&1], 0);
    assert_eq!(budgets[&2], 0);
    let odd = allocate_integer_budget(3, &shares);
    assert_eq!(odd[&1], 2);
    assert_eq!(odd[&2], 1);
}

#[test]
fn normalized_weights_hand_out_the_remainder_by_largest_fraction() {
    let shares = normalize_weights(&BTreeMap::from([(1, 1_u128), (2, 2), (3, 0)]));
    assert_eq!(shares[&1].get(), 3_333);
    assert_eq!(shares[&2].get(), 6_667);
    assert_eq!(shares[&3].get(), 0);
    let idle = normalize_weights(&BTreeMap::from([(1, 0_u128), (2, 0), (3, 0)]));
    assert_eq!(idle[&1].get(), 1);
    assert_eq!(idle[&2].get(), 1);
    assert_eq!(idle[&3].get(), 1);
    assert!(normalize_weights(&BTreeMap::new()).is_empty());
}

#[test]
fn allocation_shares_must_total_full() {
    assert!(matches!(
        CountryServiceAllocation::new(BTreeMap::from([(1, bp(4_000))])),
        Err(WorldError::InvalidServiceAllocation(_))
    ));
    assert!(CountryServiceAllocation::new(BTreeMap::new()).is_err());
}
