use std::collections::BTreeMap;

use adam_core::cohort::{AgeBand, EducationLevel, EmploymentStatus, HouseholdCohort};
use adam_core::demand::{Good, NeedTier};
use adam_core::event::DomainEvent;
use adam_core::ids::{CohortId, CountryId, FirmId, GoodId, RecipeId, RegionId};
use adam_core::market::{clear_local_market, MarketClearing, MarketOffer, MarketOrder};
use adam_core::production::{Firm, ProductionRecipe};
use adam_core::rng::WorldSeed;
use adam_core::time::SimDate;
use adam_core::value::{Money, Population, QuantityMilli};
use adam_core::world::{Country, Region, World, WorldError};

fn settlement_world(wealth: i64) -> World {
    let mut world = World::new(WorldSeed::new(1), SimDate::new(2025, 1).expect("date"));
    world.register_country(Country::new(CountryId::new(1), "A").expect("country")).expect("country");
    world.register_good(Good::new(GoodId::new(1), "Food").expect("good")).expect("good");
    world
        .register_region(
            Region::new(RegionId::new(1), CountryId::new(1), "R", Population::new(1), Money::from_minor_units(1))
                .expect("region"),
        )
        .expect("region");
    world
        .register_production_recipe(
            ProductionRecipe::new(RecipeId::new(1), "Food recipe", GoodId::new(1), QuantityMilli::new(1_000), 1_000, vec![])
                .expect("recipe"),
        )
        .expect("recipe");
    world
        .register_firm(
            Firm::new(
                FirmId::new(1),
                "Farm",
                RegionId::new(1),
                RecipeId::new(1),
                1,
                1,
                Money::zero(),
                BTreeMap::from([(1_u32, QuantityMilli::new(1_000))]),
            )
            .expect("firm"),
        )
        .expect("firm");
    world
        .register_household_cohort(HouseholdCohort::new(
            CohortId::new(1),
            RegionId::new(1),
            Population::new(1),
            1,
            AgeBand::Adult,
            EducationLevel::Secondary,
            EmploymentStatus::Employed,
            Money::zero(),
            Money::from_minor_units(wealth),
            Money::zero(),
        ))
        .expect("cohort");
    world
}

fn cleared() -> MarketClearing {
    clear_local_market(
        &[MarketOrder {
            buyer: CohortId::new(1),
            tier: NeedTier::Survival,
            region: RegionId::new(1),
            good: GoodId::new(1),
            quantity: QuantityMilli::new(1_400),
            max_spend: Money::from_minor_units(100),
        }],
        &[MarketOffer {
            seller: FirmId::new(1),
            region: RegionId::new(1),
            good: GoodId::new(1),
            quantity: QuantityMilli::new(1_000),
            unit_price: Money::from_minor_units(10),
        }],
    )
    .expect("clearing")
}

#[test]
fn settlement_moves_money_and_goods_and_records_the_month() {
    let mut world = settlement_world(100);
    let clearing = cleared();
    world.settle_local_market(&clearing).expect("settlement");
    assert_eq!(world.household_cohorts()[&1].liquid_wealth(), Money::from_minor_units(90));
    let firm = &world.firms()[&1];
    assert_eq!(firm.cash(), Money::from_minor_units(10));
    assert_eq!(firm.inventory_of(GoodId::new(1)), QuantityMilli::new(0));
    assert_eq!(world.monthly_consumption()[&(1, 1, 0)], QuantityMilli::new(1_000));
    assert_eq!(world.unmet_demand()[&(1, 1, 0)], QuantityMilli::new(400));
    assert_eq!(world.deprivation_pressure()[&1].get(), 2_857);
    assert!(world.monthly_firm_market_outcomes()[&1][0].sold_out_while_demand_remained());
    assert!(world.events().events().iter().any(|envelope| matches!(
        envelope.event(),
        DomainEvent::MarketTrade { quantity, spend, .. }
            if *quantity == QuantityMilli::new(1_000) && *spend == Money::from_minor_units(10)
    )));
}

#[test]
fn a_buyer_short_of_wealth_changes_nothing() {
    let mut world = settlement_world(5);
    let before = world.clone();
    assert_eq!(
        world.settle_local_market(&cleared()),
        Err(WorldError::InsufficientHouseholdWealth(CohortId::new(1)))
    );
    assert_eq!(world, before);
}

#[test]
fn outcomes_that_do_not_match_the_fills_are_refused() {
    let mut world = settlement_world(100);
    let mut clearing = cleared();
    clearing.offer_outcomes[0].sold = QuantityMilli::new(900);
    clearing.offer_outcomes[0].unsold = QuantityMilli::new(100);
    let before = world.clone();
    assert_eq!(
        world.settle_local_market(&clearing),
        Err(WorldError::InvalidMarketClearing("offer outcomes must match settled fills"))
    );
    assert_eq!(world, before);
    clearing.offer_outcomes[0].unsold = QuantityMilli::new(50);
    assert_eq!(
        world.settle_local_market(&clearing),
        Err(WorldError::InvalidMarketClearing("offer outcomes must conserve quantity in the seller region"))
    );
}

#[test]
fn the_month_leaves_stress_memory_and_experience() {
    let mut world = settlement_world(100);
    world.settle_local_market(&cleared()).expect("settlement");
    world.derive_monthly_social_stress().expect("stress");
    let stress = world.social_stress()[&1];
    assert_eq!(stress.health_risk().get(), 2_857);
    assert_eq!(stress.unrest_pressure().get(), 2_857);
    world.accumulate_monthly_social_stress().expect("memory");
    assert_eq!(world.social_stress_memory()[&1].health_burden().get(), 714);
    assert_eq!(world.social_stress_memory()[&1].unrest_memory().get(), 714);
    world.update_monthly_cohort_experience().expect("experience");
    let experience = world.cohort_experience()[&1];
    assert_eq!(experience.survival_shortage_months(), 1);
    assert_eq!(experience.unemployment_months(), 0);
    assert_eq!(experience.debt_distress_months(), 0);
    let before = world.clone();
    assert_eq!(
        world.update_monthly_cohort_experience(),
        Err(WorldError::MonthlyStageAlreadyExecuted { stage: "cohort experience", date: world.date() })
    );
    assert_eq!(world, before);
}
