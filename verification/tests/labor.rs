use std::collections::BTreeMap;

use adam_core::cohort::{AgeBand, EducationLevel, EmploymentStatus, HouseholdCohort};
use adam_core::demand::Good;
use adam_core::event::DomainEvent;
use adam_core::ids::{CohortId, CountryId, FirmId, GoodId, RecipeId, RegionId, SkillId};
use adam_core::labor::{EmploymentAgreement, EmploymentMatch, EmploymentSwitch, TrainingSponsor, WorkforceTraining};
use adam_core::production::{Firm, ProductionRecipe};
use adam_core::rng::WorldSeed;
use adam_core::time::SimDate;
use adam_core::value::{Money, Population, QuantityMilli};
use adam_core::world::{Country, Region, World, WorldError};

fn labor_world() -> World {
    let mut world = World::new(WorldSeed::new(8), SimDate::new(2025, 1).expect("date"));
    world
        .register_country(Country::new(CountryId::new(1), "A").expect("country"))
        .expect("country");
    world.register_good(Good::new(GoodId::new(1), "Bread").expect("good")).expect("good");
    world
        .register_production_recipe(
            ProductionRecipe::new(RecipeId::new(1), "Baking", GoodId::new(1), QuantityMilli::new(1_000), 1, vec![])
                .expect("recipe"),
        )
        .expect("recipe");
    for id in [1, 2] {
        world
            .register_region(
                Region::new(RegionId::new(id), CountryId::new(1), "R", Population::new(10), Money::zero())
                    .expect("region"),
            )
            .expect("region");
    }
    world
        .register_firm(
            Firm::new(FirmId::new(1), "Bakery", RegionId::new(1), RecipeId::new(1), 5, 1, Money::zero(), BTreeMap::new())
                .expect("firm"),
        )
        .expect("firm");
    for (id, region) in [(1, 1), (2, 1), (3, 2)] {
        world
            .register_household_cohort(HouseholdCohort::new(
                CohortId::new(id),
                RegionId::new(region),
                Population::new(4),
                2,
                AgeBand::Adult,
                EducationLevel::Secondary,
                EmploymentStatus::Employed,
                Money::zero(),
                Money::zero(),
                Money::zero(),
            ))
            .expect("cohort");
    }
    world
}

fn agreement(cohort: u32, workers: u64) -> EmploymentAgreement {
    EmploymentAgreement::new(FirmId::new(1), CohortId::new(cohort), workers, Money::from_minor_units(100))
        .expect("agreement")
}

#[test]
fn agreements_stay_within_the_firm_and_the_cohort() {
    let mut world = labor_world();
    world.register_employment_agreement(agreement(1, 3)).expect("first");
    assert_eq!(world.employment_agreements()[&(1, 1)].workers(), 3);
    assert_eq!(
        world.register_employment_agreement(agreement(1, 1)),
        Err(WorldError::InvalidEmployment("duplicate employment agreement"))
    );
    assert_eq!(
        world.register_employment_agreement(agreement(2, 3)),
        Err(WorldError::InvalidEmployment(
            "employment exceeds workers or cohort population"
        ))
    );
    assert_eq!(
        world.register_employment_agreement(agreement(3, 1)),
        Err(WorldError::InvalidEmployment("firm and cohort must share a region"))
    );
    assert_eq!(
        world.register_employment_agreement(agreement(9, 1)),
        Err(WorldError::UnknownCohort(CohortId::new(9)))
    );
    world.register_employment_agreement(agreement(2, 2)).expect("second");
    assert_eq!(world.employment_agreements().len(), 2);
}

fn switch_world() -> World {
    let mut world = World::new(WorldSeed::new(3), SimDate::new(2025, 1).expect("date"));
    world
        .register_country(Country::new(CountryId::new(1), "A").expect("country"))
        .expect("country");
    world.register_good(Good::new(GoodId::new(1), "grain").expect("good")).expect("good");
    world
        .register_region(
            Region::new(RegionId::new(1), CountryId::new(1), "R", Population::new(1), Money::zero())
                .expect("region"),
        )
        .expect("region");
    world
        .register_household_cohort(HouseholdCohort::new(
            CohortId::new(1),
            RegionId::new(1),
            Population::new(1),
            1,
            AgeBand::Adult,
            EducationLevel::Secondary,
            EmploymentStatus::Unemployed,
            Money::from_minor_units(1_200),
            Money::zero(),
            Money::zero(),
        ))
        .expect("cohort");
    world
        .register_production_recipe(
            ProductionRecipe::new(RecipeId::new(1), "grain workshop", GoodId::new(1), QuantityMilli::new(1_000), 1_000, vec![])
                .expect("recipe"),
        )
        .expect("recipe");
    world
        .set_recipe_minimum_education(RecipeId::new(1), EducationLevel::Basic)
        .expect("explicit labor profile");
    for (id, capacity) in [(1, 1), (2, 2)] {
        world
            .register_firm(
                Firm::new(
                    FirmId::new(id),
                    "Works",
                    RegionId::new(1),
                    RecipeId::new(1),
                    1,
                    capacity,
                    Money::from_minor_units(1_000),
                    BTreeMap::new(),
                )
                .expect("firm"),
            )
            .expect("firm");
        world.firm_production_targets.insert(id, 1);
    }
    world
        .register_employment_agreement(
            EmploymentAgreement::new(FirmId::new(1), CohortId::new(1), 1, Money::from_minor_units(100))
                .expect("source agreement"),
        )
        .expect("register source agreement");
    world.employment_agreements.get_mut(&(1, 1)).expect("source").months_at_current_firm = 3;
    world
}

fn better_offer(offered: i64) -> EmploymentSwitch {
    EmploymentSwitch {
        from_firm: FirmId::new(1),
        to_firm: FirmId::new(2),
        cohort: CohortId::new(1),
        previous_wage: Money::from_minor_units(100),
        offered_wage: Money::from_minor_units(offered),
        minimum_education: EducationLevel::Basic,
        labor_market_adjustment_basis_points: 0,
    }
}

#[test]
fn worker_switches_to_materially_better_offer() {
    let mut world = switch_world();
    world.switch_employment_worker(better_offer(113)).expect("switch");
    let source = world.employment_agreements()[&(1, 1)];
    assert_eq!(source.workers(), 0);
    assert!(!source.active());
    let destination = world.employment_agreements()[&(2, 1)];
    assert_eq!(destination.workers(), 1);
    assert_eq!(destination.wage(), Money::from_minor_units(113));
    assert!(destination.active());
}

#[test]
fn a_stale_or_early_switch_changes_nothing() {
    let mut world = switch_world();
    let before = world.clone();
    assert_eq!(
        world.switch_employment_worker(better_offer(118)),
        Err(WorldError::InvalidEmployment(
            "employment switch requires a qualified worker and a current 10% better funded bid"
        ))
    );
    assert_eq!(world, before);
    world.employment_agreements.get_mut(&(1, 1)).expect("source").months_at_current_firm = 2;
    assert!(world.switch_employment_worker(better_offer(113)).is_err());
    let mut same = switch_world();
    let mut offer = better_offer(113);
    offer.to_firm = FirmId::new(1);
    assert_eq!(
        same.switch_employment_worker(offer),
        Err(WorldError::InvalidEmployment("employment switch requires a distinct firm with a vacancy"))
    );
}

#[test]
fn an_unqualified_worker_cannot_switch() {
    let mut world = switch_world();
    world
        .set_recipe_minimum_education(RecipeId::new(1), EducationLevel::Vocational)
        .expect("education requirement");
    let mut offer = better_offer(113);
    offer.minimum_education = EducationLevel::Vocational;
    let before = world.clone();
    assert!(world.switch_employment_worker(offer).is_err());
    assert_eq!(world, before);
}

#[test]
fn an_unknown_recipe_takes_no_education_requirement() {
    let mut world = switch_world();
    assert_eq!(
        world.set_recipe_minimum_education(RecipeId::new(9), EducationLevel::Tertiary),
        Err(WorldError::UnknownRecipe(RecipeId::new(9)))
    );
    assert_eq!(world.recipe_minimum_education()[&1], EducationLevel::Basic);
}

fn match_world() -> World {
    let mut world = switch_world();
    world.employment_agreements.clear();
    world
}

fn bid(wage: i64) -> EmploymentMatch {
    EmploymentMatch {
        firm: FirmId::new(1),
        cohort: CohortId::new(1),
        wage: Money::from_minor_units(wage),
        minimum_education: EducationLevel::Basic,
        labor_market_adjustment_basis_points: 0,
    }
}

#[test]
fn a_qualified_worker_is_hired_at_the_current_bid_once() {
    let mut world = match_world();
    world.match_employment_worker(bid(120)).expect("match");
    let hired = world.employment_agreements()[&(1, 1)];
    assert_eq!(hired.workers(), 1);
    assert_eq!(hired.wage(), Money::from_minor_units(120));
    assert!(hired.active());
    assert_eq!(
        world.events().events().last().expect("event").event(),
        &DomainEvent::EmploymentMatched {
            firm: FirmId::new(1),
            cohort: CohortId::new(1),
            workers: 1,
            wage: Money::from_minor_units(120),
            minimum_education: EducationLevel::Basic,
            labor_market_adjustment_basis_points: 0,
        }
    );
    let before = world.clone();
    assert_eq!(
        world.match_employment_worker(bid(120)),
        Err(WorldError::InvalidEmployment("labor match requires a funded vacancy"))
    );
    assert_eq!(world, before);
}

#[test]
fn a_stale_or_unfunded_bid_changes_nothing() {
    let mut world = match_world();
    let before = world.clone();
    assert_eq!(
        world.match_employment_worker(bid(119)),
        Err(WorldError::InvalidEmployment(
            "labor match wage must equal the current observed competitive bid"
        ))
    );
    assert_eq!(
        world.match_employment_worker(bid(0)),
        Err(WorldError::InvalidEmployment("labor match requires a funded vacancy"))
    );
    assert_eq!(
        world.match_employment_worker(bid(5_000)),
        Err(WorldError::InsufficientFirmCash(FirmId::new(1)))
    );
    assert_eq!(world, before);
}

#[test]
fn education_requirement_blocks_an_unqualified_match() {
    let mut world = match_world();
    world
        .set_recipe_minimum_education(RecipeId::new(1), EducationLevel::Vocational)
        .expect("education requirement");
    let mut offer = bid(120);
    offer.minimum_education = EducationLevel::Vocational;
    let before = world.clone();
    assert_eq!(
        world.match_employment_worker(offer),
        Err(WorldError::InvalidEmployment(
            "labor match requires a qualified unallocated local worker"
        ))
    );
    assert!(world.employment_agreements().is_empty());
    assert_eq!(world, before);
}

#[test]
fn an_occupation_skill_is_required_in_addition_to_education() {
    let mut world = match_world();
    world.set_recipe_required_skill(RecipeId::new(1), SkillId::new(7)).expect("skill profile");
    assert_eq!(
        world.match_employment_worker(bid(120)),
        Err(WorldError::InvalidEmployment(
            "labor match requires a qualified unallocated local worker"
        ))
    );
    assert_eq!(
        world.set_cohort_skill(CohortId::new(1), SkillId::new(7), 0),
        Err(WorldError::InvalidEmployment("cohort skill proficiency must be positive"))
    );
    assert_eq!(
        world.set_cohort_skill(CohortId::new(9), SkillId::new(7), 1),
        Err(WorldError::UnknownCohort(CohortId::new(9)))
    );
    assert_eq!(
        world.set_recipe_required_skill(RecipeId::new(9), SkillId::new(7)),
        Err(WorldError::UnknownRecipe(RecipeId::new(9)))
    );
    world.set_cohort_skill(CohortId::new(1), SkillId::new(7), 1).expect("cohort skill");
    world.match_employment_worker(bid(120)).expect("skilled match");
    assert_eq!(world.employment_agreements().len(), 1);
}

fn course(cohort: u32, months: u8) -> WorkforceTraining {
    WorkforceTraining {
        cohort: CohortId::new(cohort),
        previous_education: EducationLevel::Secondary,
        target_education: EducationLevel::Vocational,
        months_remaining: months,
        tuition_paid: Money::from_minor_units(100),
        sponsor: TrainingSponsor::Household,
    }
}

#[test]
fn training_completes_after_its_months_and_raises_education() {
    let mut world = match_world();
    world.workforce_training.insert(1, course(1, 2));
    world.progress_workforce_training().expect("first month");
    assert_eq!(world.workforce_training()[&1].months_remaining, 1);
    assert_eq!(world.household_cohorts()[&1].education, EducationLevel::Secondary);
    world.progress_workforce_training().expect("last month");
    assert!(world.workforce_training().is_empty());
    assert_eq!(world.household_cohorts()[&1].education, EducationLevel::Vocational);
    assert_eq!(world.household_cohorts()[&1].people, Population::new(1));
    assert_eq!(world.household_cohorts().len(), 1);
    assert_eq!(
        world.events().events().last().expect("event").event(),
        &DomainEvent::WorkforceTrainingCompleted {
            cohort: CohortId::new(1),
            previous_education: EducationLevel::Secondary,
            new_education: EducationLevel::Vocational,
        }
    );
}

#[test]
fn training_of_an_unknown_cohort_is_refused_without_change() {
    let mut world = match_world();
    world.workforce_training.insert(1, course(1, 3));
    world.workforce_training.insert(9, course(9, 1));
    let before = world.clone();
    assert_eq!(world.progress_workforce_training(), Err(WorldError::UnknownCohort(CohortId::new(9))));
    assert_eq!(world, before);
}
