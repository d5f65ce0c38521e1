use adam_core::event::DomainEvent;
use adam_core::ids::{CountryId, RegionId};
use adam_core::political_economy::RegionalSocialPressure;
use adam_core::regional_interests::{
    leading_priority, regional_confidence_effect, update_interest, RegionalFiscalPosition,
    RegionalInterest, RegionalPolicyPriority,
};
use adam_core::rng::WorldSeed;
use adam_core::time::SimDate;
use adam_core::value::{BasisPoints, Money, Population};
use adam_core::world::{Country, Region, World};

fn pressure(unemployment: u16, livelihood: u16, services: u16, combined: u16) -> RegionalSocialPressure {
    RegionalSocialPressure::from_components(unemployment, livelihood, services, combined)
}

#[test]
fn priority_changes_only_for_materially_stronger_pressure() {
    let employment = update_interest(
        RegionalInterest::default(),
        pressure(6_000, 3_000, 4_000, 4_500),
        RegionalFiscalPosition::Balanced,
    );
    assert_eq!(employment.priority(), RegionalPolicyPriority::Employment);
    let retained = update_interest(
        employment,
        pressure(5_000, 5_500, 4_000, 4_800),
        RegionalFiscalPosition::Balanced,
    );
    assert_eq!(retained.priority(), RegionalPolicyPriority::Employment);
    let switched = update_interest(
        retained,
        pressure(4_000, 6_000, 4_000, 5_000),
        RegionalFiscalPosition::Balanced,
    );
    assert_eq!(switched.priority(), RegionalPolicyPriority::HouseholdSecurity);
}

#[test]
fn fiscal_winners_and_losers_move_satisfaction_in_opposite_directions() {
    let base = RegionalInterest::default();
    let evidence = pressure(0, 0, 5_000, 833);
    let beneficiary = update_interest(base, evidence, RegionalFiscalPosition::NetBeneficiary);
    let contributor = update_interest(base, evidence, RegionalFiscalPosition::NetContributor);
    assert!(beneficiary.satisfaction().get() > BasisPoints::half().get());
    assert!(contributor.satisfaction().get() < BasisPoints::half().get());
}

#[test]
fn regional_confidence_effect_is_bounded_and_centered() {
    assert_eq!(regional_confidence_effect(BasisPoints::zero()), -200);
    assert_eq!(regional_confidence_effect(BasisPoints::half()), 0);
    assert_eq!(regional_confidence_effect(BasisPoints::full()), 200);
}

fn one_region_world(population: u64) -> World {
    let date = SimDate::new(2025, 1).expect("date");
    let mut world = World::new(WorldSeed::new(11), date);
    world
        .register_country(Country::new(CountryId::new(1), "Union").expect("country"))
        .expect("country");
    world
        .register_region(
            Region::new(
                RegionId::new(1),
                CountryId::new(1),
                "Harbor",
                Population::new(population),
                Money::from_minor_units(10_000),
            )
            .expect("region"),
        )
        .expect("region");
    world
}

#[test]
fn country_confidence_is_population_weighted() {
    let mut world = one_region_world(100);
    world
        .register_region(
            Region::new(
                RegionId::new(2),
                CountryId::new(1),
                "Interior",
                Population::new(300),
                Money::from_minor_units(10_000),
            )
            .expect("region"),
        )
        .expect("region");
    world.regional_interests.insert(
        1,
        RegionalInterest {
            satisfaction: BasisPoints::new(2_000).expect("satisfaction"),
            ..RegionalInterest::default()
        },
    );
    world.regional_interests.insert(
        2,
        RegionalInterest {
            satisfaction: BasisPoints::new(6_000).expect("satisfaction"),
            ..RegionalInterest::default()
        },
    );
    assert_eq!(world.country_regional_confidence(CountryId::new(1)).get(), 5_000);
}

#[test]
fn an_empty_country_is_neutral() {
    let world = one_region_world(0);
    assert_eq!(world.country_regional_confidence(CountryId::new(1)).get(), 5_000);
    assert_eq!(world.country_regional_confidence(CountryId::new(9)).get(), 5_000);
}

#[test]
fn weak_pressure_leaves_stability_as_the_priority() {
    let (priority, strength) = leading_priority(pressure(2_000, 1_000, 2_400, 1_800));
    assert_eq!(priority, RegionalPolicyPriority::Stability);
    assert_eq!(strength, 1_800);
    let (tied, tied_strength) = leading_priority(pressure(3_000, 3_000, 3_000, 3_000));
    assert_eq!(tied, RegionalPolicyPriority::Employment);
    assert_eq!(tied_strength, 3_000);
}

#[test]
fn service_allocation_records_a_real_regional_beneficiary() {
    let mut world = one_region_world(100);
    let close_date = SimDate::new(2026, 1).expect("date");
    world.events.append(
        close_date,
        DomainEvent::RegionalPublicServicesUpdated {
            region: RegionId::new(1),
            service_budget: Money::from_minor_units(100),
            funding_target: BasisPoints::half(),
            healthcare: BasisPoints::half(),
            infrastructure: BasisPoints::half(),
            administration: BasisPoints::half(),
        },
    );
    world
        .update_annual_regional_interests(close_date)
        .expect("regional interests");
    let outcome = world.regional_policy_outcomes()[&1];
    assert_eq!(outcome.net_transfer(), Money::from_minor_units(100));
    assert_eq!(
        outcome.fiscal_position(),
        RegionalFiscalPosition::NetBeneficiary
    );
    assert_eq!(world.regional_interests()[&1].satisfaction().get(), 5_025);
}
