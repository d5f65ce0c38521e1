use std::collections::BTreeMap;

use adam_core::cohort::{AgeBand, EducationLevel, EmploymentStatus, HouseholdCohort};
use adam_core::demand::Good;
use adam_core::event::DomainEvent;
use adam_core::ids::{CohortId, CountryId, FirmId, GoodId, RecipeId, RegionId, SkillId};
use adam_core::labor::{EmploymentAgreement, RegionalLaborMarketObservation, RegionalSkillLaborMarketObservation};
use adam_core::production::{Firm, ProductionRecipe};
use adam_core::rng::WorldSeed;
use adam_core::time::SimDate;
use adam_core::value::{Money, Population, QuantityMilli};
use adam_core::world::{Country, Region, World, WorldError};

fn labor_market_world() -> World {
    let mut world = World::new(WorldSeed::new(11), SimDate::new(2025, 1).expect("date"));
    world
        .register_country(Country::new(CountryId::new(1), "A").expect("country"))
        .expect("country registration");
    world
        .register_region(
            Region::new(RegionId::new(1), CountryId::new(1), "North", Population::new(1), Money::zero())
                .expect("region"),
        )
        .expect("region registration");
    world.register_good(Good::new(GoodId::new(1), "grain").expect("good")).expect("good registration");
    world
        .register_household_cohort(HouseholdCohort::new(
            CohortId::new(1),
            RegionId::new(1),
            Population::new(1),
            1,
            AgeBand::Adult,
            EducationLevel::Secondary,
            EmploymentStatus::Unemployed,
            Money::from_minor_units(1_200),
            Money::zero(),
            Money::zero(),
        ))
        .expect("cohort registration");
    world
        .register_production_recipe(
            ProductionRecipe::new(RecipeId::new(1), "grain workshop", GoodId::new(1), QuantityMilli::new(1_000), 1_000, vec![])
                .expect("recipe"),
        )
        .expect("recipe registration");
    world
        .set_recipe_minimum_education(RecipeId::new(1), EducationLevel::Basic)
        .expect("explicit labor profile");
    for (id, capacity) in [(1, 1), (2, 2)] {
        world
            .register_firm(
                Firm::new(
                    FirmId::new(id),
                    "Works",
                    RegionId::new(1),
                    RecipeId::new(1),
                    1,
                    capacity,
                    Money::from_minor_units(1_000),
                    BTreeMap::new(),
                )
                .expect("firm"),
            )
            .expect("firm registration");
        world.firm_production_targets.insert(id, 1);
    }
    world
}

#[test]
fn a_firm_leaves_a_vacancy_open_when_the_bid_outruns_what_the_work_is_worth() {
    let mut world = labor_market_world();
    world.regional_prices.insert((1, 1), Money::from_minor_units(1));
    let matches = world.execute_observed_labor_matching().expect("labor matching");
    assert!(matches.is_empty());
    assert_eq!(world.household_cohorts()[&1].employment, EmploymentStatus::Unemployed);
    assert!(world.employment_agreements().is_empty());
}

#[test]
fn the_same_worker_is_hired_once_the_work_covers_the_wage() {
    let mut world = labor_market_world();
    world.regional_prices.insert((1, 1), Money::from_minor_units(3_000));
    let matches = world.execute_observed_labor_matching().expect("labor matching");
    assert_eq!(matches.len(), 1);
}

#[test]
fn scarce_qualified_worker_accepts_highest_ranked_wage_offer_and_replays() {
    let mut direct = labor_market_world();
    let mut replayed = direct.clone();
    direct.execute_observed_labor_matching().expect("labor matching");
    replayed.execute_observed_labor_matching().expect("replayed labor matching");
    assert_eq!(direct, replayed);
    assert_eq!(direct.stable_fingerprint(), replayed.stable_fingerprint());
    let agreement = direct.employment_agreements()[&(1, 1)];
    assert_eq!(agreement.workers(), 1);
    assert_eq!(agreement.wage(), Money::from_minor_units(120));
    let observation = direct.regional_labor_market()[&1];
    assert_eq!(observation.available_workers, 0);
    assert_eq!(observation.vacancies, 1);
    assert_eq!(observation.offers, 2);
    assert_eq!(observation.hires, 1);
    assert_eq!(observation.average_offered_wage, Money::from_minor_units(116));
    assert_eq!(observation.unemployment_pressure_months, 0);
    assert_eq!(observation.vacancy_pressure_months, 1);
    assert!(!direct.employment_agreements().contains_key(&(2, 1)));
    assert!(direct.events().events().iter().any(|envelope| matches!(
        envelope.event(),
        DomainEvent::EmploymentMatched {
            firm,
            cohort,
            wage,
            minimum_education: EducationLevel::Basic,
            ..
        } if *firm == FirmId::new(1)
            && *cohort == CohortId::new(1)
            && *wage == Money::from_minor_units(120)
    )));
}

#[test]
fn regional_labor_evidence_retains_persistent_unemployment_pressure() {
    let mut world = labor_market_world();
    world.firm_production_targets.insert(1, 0);
    world.firm_production_targets.insert(2, 0);
    world.execute_observed_labor_matching().expect("first labor observation");
    let first = world.regional_labor_market()[&1];
    assert_eq!(first.available_workers, 1);
    assert_eq!(first.vacancies, 0);
    assert_eq!(first.unemployment_pressure_months, 1);
    assert_eq!(first.vacancy_pressure_months, 0);
    world.date.advance_one_month().expect("next month");
    world.execute_observed_labor_matching().expect("second labor observation");
    let second = world.regional_labor_market()[&1];
    assert_eq!(second.unemployment_pressure_months, 2);
    assert!(world.events().events().iter().any(|envelope| matches!(
        envelope.event(),
        DomainEvent::RegionalLaborMarketObserved {
            region,
            available_workers: 1,
            vacancies: 0,
            unemployment_pressure_months: 2,
            ..
        } if *region == RegionId::new(1)
    )));
}

#[test]
fn worker_switches_to_materially_better_offer_and_replays() {
    let mut direct = labor_market_world();
    direct
        .register_employment_agreement(
            EmploymentAgreement::new(FirmId::new(1), CohortId::new(1), 1, Money::from_minor_units(100))
                .expect("source agreement"),
        )
        .expect("register source agreement");
    for _ in 0..3 {
        let early_matches = direct.execute_observed_labor_matching().expect("tenure-building labor market");
        assert!(early_matches.is_empty());
        assert!(!direct.employment_agreements().contains_key(&(2, 1)));
        direct.date.advance_one_month().expect("tenure month");
    }
    let mut replayed = direct.clone();
    let matches = direct.execute_observed_labor_matching().expect("labor market with switching");
    replayed.execute_observed_labor_matching().expect("replayed switching market");
    assert!(matches.is_empty());
    assert_eq!(direct, replayed);
    assert_eq!(direct.stable_fingerprint(), replayed.stable_fingerprint());
    assert_eq!(direct.employment_agreements()[&(1, 1)].workers(), 0);
    let destination = direct.employment_agreements()[&(2, 1)];
    assert_eq!(destination.workers(), 1);
    assert_eq!(destination.wage(), Money::from_minor_units(118));
    assert_eq!(destination.months_at_current_firm(), 1);
    assert!(direct.events().events().iter().any(|envelope| matches!(
        envelope.event(),
        DomainEvent::EmploymentSwitched {
            from_firm,
            to_firm,
            cohort,
            previous_wage,
            offered_wage,
            ..
        } if *from_firm == FirmId::new(1)
            && *to_firm == FirmId::new(2)
            && *cohort == CohortId::new(1)
            && *previous_wage == Money::from_minor_units(100)
            && *offered_wage == Money::from_minor_units(118)
    )));
    assert!(direct.events().events().iter().any(|envelope| matches!(
        envelope.event(),
        DomainEvent::ObservedLaborMatchingCompleted { matches: 0, switches: 1, .. }
    )));
}

fn pressure_row(available: u64, vacancies: u64, unemployment: u8, vacancy: u8) -> RegionalLaborMarketObservation {
    RegionalLaborMarketObservation {
        region: RegionId::new(1),
        available_workers: available,
        vacancies,
        offers: 0,
        hires: 0,
        average_offered_wage: Money::zero(),
        unemployment_pressure_months: unemployment,
        vacancy_pressure_months: vacancy,
    }
}

fn skill_row(
    level: EducationLevel,
    available: u64,
    vacancies: u64,
    unemployment: u8,
    vacancy: u8,
) -> RegionalSkillLaborMarketObservation {
    RegionalSkillLaborMarketObservation {
        region: RegionId::new(1),
        minimum_education: level,
        qualified_available_workers: available,
        vacancies,
        unemployment_pressure_months: unemployment,
        vacancy_pressure_months: vacancy,
    }
}

#[test]
fn persistent_regional_pressure_adapts_funded_wage_bids_boundedly() {
    let mut scarcity = labor_market_world();
    scarcity.regional_labor_market.insert(1, pressure_row(0, 1, 0, 3));
    scarcity.regional_skill_labor_market.insert((1, 1), skill_row(EducationLevel::Basic, 0, 1, 0, 3));
    let scarcity_matches = scarcity.execute_observed_labor_matching().expect("scarcity-adjusted matching");
    assert_eq!(scarcity_matches[0].wage, Money::from_minor_units(125));
    assert_eq!(scarcity_matches[0].labor_market_adjustment_basis_points, 500);

    let mut surplus = labor_market_world();
    surplus.regional_labor_market.insert(1, pressure_row(1, 0, 3, 0));
    surplus.regional_skill_labor_market.insert((1, 1), skill_row(EducationLevel::Basic, 1, 0, 3, 0));
    let surplus_matches = surplus.execute_observed_labor_matching().expect("surplus-adjusted matching");
    assert_eq!(surplus_matches[0].wage, Money::from_minor_units(118));
    assert_eq!(surplus_matches[0].labor_market_adjustment_basis_points, -250);
}

#[test]
fn persistent_skill_shortage_funds_timed_training_and_replays() {
    let mut direct = labor_market_world();
    direct
        .set_recipe_minimum_education(RecipeId::new(1), EducationLevel::Vocational)
        .expect("vocational profile");
    direct.cohorts.get_mut(&1).expect("training cohort").liquid_wealth = Money::from_minor_units(100);
    direct.regional_skill_labor_market.insert((1, 3), skill_row(EducationLevel::Vocational, 0, 2, 0, 6));
    let mut replayed = direct.clone();
    for month in 0..4 {
        direct.execute_observed_labor_matching().expect("direct training month");
        replayed.execute_observed_labor_matching().expect("replayed training month");
        if month < 3 {
            direct.date.advance_one_month().expect("direct training calendar");
            replayed.date.advance_one_month().expect("replayed training calendar");
        }
    }
    assert_eq!(direct, replayed);
    assert_eq!(direct.stable_fingerprint(), replayed.stable_fingerprint());
    assert!(direct.workforce_training().is_empty());
    let cohort = direct.household_cohorts()[&1];
    assert_eq!(cohort.education, EducationLevel::Vocational);
    assert_eq!(cohort.liquid_wealth, Money::zero());
    assert!(direct.events().events().iter().any(|envelope| matches!(
        envelope.event(),
        DomainEvent::WorkforceTrainingStarted {
            cohort,
            previous_education: EducationLevel::Secondary,
            target_education: EducationLevel::Vocational,
            months: 3,
            tuition_paid,
            sponsoring_firm: None,
        } if *cohort == CohortId::new(1)
            && *tuition_paid == Money::from_minor_units(100)
    )));
    assert!(direct.events().events().iter().any(|envelope| matches!(
        envelope.event(),
        DomainEvent::WorkforceTrainingCompleted {
            cohort,
            previous_education: EducationLevel::Secondary,
            new_education: EducationLevel::Vocational,
        } if *cohort == CohortId::new(1)
    )));
    let row = direct.regional_skill_labor_market().get(&(1, 3)).expect("vocational evidence");
    assert!(row.vacancy_pressure_months >= 6);
}

#[test]
fn occupation_skill_is_required_in_addition_to_education() {
    let mut unskilled = labor_market_world();
    unskilled.set_recipe_required_skill(RecipeId::new(1), SkillId::new(7)).expect("skill profile");
    assert!(unskilled.execute_observed_labor_matching().expect("unskilled market").is_empty());

    let mut skilled = labor_market_world();
    skilled.set_recipe_required_skill(RecipeId::new(1), SkillId::new(7)).expect("skill profile");
    skilled.set_cohort_skill(CohortId::new(1), SkillId::new(7), 1).expect("cohort skill");
    assert_eq!(skilled.execute_observed_labor_matching().expect("skilled market").len(), 1);
}

#[test]
fn education_requirement_blocks_unqualified_worker_without_mutation() {
    let mut world = labor_market_world();
    world
        .set_recipe_minimum_education(RecipeId::new(1), EducationLevel::Vocational)
        .expect("education requirement");
    let before = world.clone();
    let matches = world.execute_observed_labor_matching().expect("labor matching");
    assert!(matches.is_empty());
    assert!(world.employment_agreements().is_empty());
    assert_eq!(world.firms, before.firms);
}

#[test]
fn a_second_labor_month_on_one_date_is_refused_without_change() {
    let mut world = labor_market_world();
    world.execute_observed_labor_matching().expect("first month");
    let before = world.clone();
    assert_eq!(
        world.execute_observed_labor_matching(),
        Err(WorldError::MonthlyStageAlreadyExecuted { stage: "observed labor matching", date: world.date })
    );
    assert_eq!(world, before);
}

#[test]
fn a_larger_cohort_splits_off_one_trainee_household_and_keeps_its_people() {
    let mut world = labor_market_world();
    world
        .set_recipe_minimum_education(RecipeId::new(1), EducationLevel::Vocational)
        .expect("vocational profile");
    {
        let cohort = world.cohorts.get_mut(&1).expect("cohort");
        cohort.people = Population::new(4);
        cohort.households = 2;
        cohort.annual_income = Money::from_minor_units(2_400);
        cohort.liquid_wealth = Money::from_minor_units(400);
    }
    world.regional_skill_labor_market.insert((1, 3), skill_row(EducationLevel::Vocational, 0, 2, 0, 6));
    world.execute_observed_labor_matching().expect("training month");
    let source = world.household_cohorts()[&1];
    let trainee = world.household_cohorts()[&2];
    assert_eq!(source.people.people() + trainee.people.people(), 4);
    assert_eq!(trainee.people, Population::new(2));
    assert_eq!(source.households + trainee.households, 2);
    assert_eq!(trainee.liquid_wealth, Money::from_minor_units(100));
    assert_eq!(world.workforce_training()[&2].tuition_paid, Money::from_minor_units(100));
}

#[test]
fn a_month_refused_late_leaves_the_world_as_it_was() {
    let mut world = labor_market_world();
    world
        .set_recipe_minimum_education(RecipeId::new(1), EducationLevel::Vocational)
        .expect("vocational profile");
    world
        .register_household_cohort(HouseholdCohort::new(
            CohortId::new(u32::MAX),
            RegionId::new(1),
            Population::new(4),
            2,
            AgeBand::Adult,
            EducationLevel::Vocational,
            EmploymentStatus::Unemployed,
            Money::from_minor_units(2_400),
            Money::from_minor_units(400),
            Money::zero(),
        ))
        .expect("second cohort");
    world.cohorts.get_mut(&u32::MAX).expect("cohort").education = EducationLevel::Secondary;
    world.regional_skill_labor_market.insert((1, 3), skill_row(EducationLevel::Vocational, 0, 2, 0, 6));
    let before = world.clone();
    assert_eq!(
        world.execute_observed_labor_matching(),
        Err(WorldError::ArithmeticOverflow("training cohort identity"))
    );
    assert_eq!(world, before);
}
