use std::collections::BTreeMap;

use adam_core::ids::{CountryId, RegionId};
use adam_core::political_economy::{legitimacy_effect, social_pressure_from, RegionalSocialPressure};
use adam_core::public_services::RegionalPublicServices;
use adam_core::rng::WorldSeed;
use adam_core::time::SimDate;
use adam_core::value::{BasisPoints, Money, Population};
use adam_core::world::{Country, Region, World};

fn bp(value: u16) -> BasisPoints {
    BasisPoints::new(value).expect("pressure")
}

#[test]
fn legitimacy_rewards_stability_and_penalizes_severe_pressure() {
    assert_eq!(legitimacy_effect(bp(0)), 150);
    assert_eq!(legitimacy_effect(bp(3_000)), 0);
    assert_eq!(legitimacy_effect(BasisPoints::full()), -350);
}

fn world_with_two_regions() -> World {
    let mut world = World::new(WorldSeed::new(9), SimDate::new(2025, 1).expect("date"));
    world
        .register_country(Country::new(CountryId::new(1), "Republic").expect("country"))
        .expect("country");
    for (id, people) in [(1, 100), (2, 300)] {
        world
            .register_region(
                Region::new(
                    RegionId::new(id),
                    CountryId::new(1),
                    &format!("Region {id}"),
                    Population::new(people),
                    Money::from_minor_units(10_000),
                )
                .expect("region"),
            )
            .expect("region");
    }
    world
}

#[test]
fn country_pressure_is_population_weighted_not_region_averaged() {
    let world = world_with_two_regions();
    let value = |combined| RegionalSocialPressure::from_components(0, 0, 0, combined);
    let regional = BTreeMap::from([(1, value(1_000)), (2, value(5_000))]);
    assert_eq!(
        world.country_social_pressure(CountryId::new(1), &regional).get(),
        4_000
    );
}

#[test]
fn service_shortfall_is_visible_without_invented_household_stress() {
    let world = world_with_two_regions();
    let services = world
        .regional_public_services()
        .get(&1)
        .copied()
        .unwrap_or_default();
    let first = social_pressure_from(0, 0, 0, services);
    assert_eq!(first.chronic_unemployment().get(), 0);
    assert_eq!(first.livelihood_stress().get(), 0);
    assert_eq!(first.public_service_shortfall().get(), 5_000);
    assert_eq!(first.combined().get(), 833);
}

#[test]
fn cohort_aggregates_are_population_weighted_and_capped() {
    let services = RegionalPublicServices::default();
    let pressure = social_pressure_from(10, 30_000, 200_000, services);
    assert_eq!(pressure.chronic_unemployment().get(), 3_000);
    assert_eq!(pressure.livelihood_stress().get(), 10_000);
    assert_eq!(pressure.public_service_shortfall().get(), 5_000);
    assert_eq!(pressure.combined().get(), (3_000 * 2 + 10_000 * 3 + 5_000) / 6);
}

#[test]
fn a_country_without_people_or_regions_feels_no_pressure() {
    let world = world_with_two_regions();
    let regional = BTreeMap::from([(1, RegionalSocialPressure::from_components(0, 0, 0, 9_000))]);
    assert_eq!(
        world.country_social_pressure(CountryId::new(7), &regional).get(),
        0
    );
    assert_eq!(
        world.country_social_pressure(CountryId::new(1), &BTreeMap::new()).get(),
        0
    );
}
