use adam_core::cohort::{AgeBand, EducationLevel, EmploymentStatus, HouseholdCohort};
use adam_core::ids::{CohortId, CountryId, RegionId};
use adam_core::labor::RegionalLaborMarketObservation;
use adam_core::migration::RegionalHousingMarket;
use adam_core::rng::WorldSeed;
use adam_core::time::SimDate;
use adam_core::value::{Money, Population};
use adam_core::world::{Country, Region, World, WorldError};

#[allow(clippy::too_many_arguments)]
fn cohort(
    id: u32,
    region: u32,
    people: u64,
    households: u64,
    employment: EmploymentStatus,
    income: i64,
    wealth: i64,
    debt: i64,
) -> HouseholdCohort {
    HouseholdCohort::new(
        CohortId::new(id),
        RegionId::new(region),
        Population::new(people),
        households,
        AgeBand::Adult,
        EducationLevel::Secondary,
        employment,
        Money::from_minor_units(income),
        Money::from_minor_units(wealth),
        Money::from_minor_units(debt),
    )
}

fn labor(region: u32, available: u64, vacancies: u64, unemployment: u8, vacancy: u8) -> RegionalLaborMarketObservation {
    RegionalLaborMarketObservation {
        region: RegionId::new(region),
        available_workers: available,
        vacancies,
        offers: 0,
        hires: 0,
        average_offered_wage: Money::zero(),
        unemployment_pressure_months: unemployment,
        vacancy_pressure_months: vacancy,
    }
}

fn test_world() -> World {
    let mut world = World::new(WorldSeed::new(9), SimDate::new(2025, 1).expect("date"));
    world.register_country(Country::new(CountryId::new(1), "A").expect("country")).expect("country");
    for (id, name, population) in [(1, "Oldtown", 100), (2, "Newport", 20)] {
        world
            .register_region(
                Region::new(
                    RegionId::new(id),
                    CountryId::new(1),
                    name,
                    Population::new(population),
                    Money::from_minor_units(10_000),
                )
                .expect("region"),
            )
            .expect("region");
    }
    world
        .register_household_cohort(cohort(1, 1, 100, 50, EmploymentStatus::Unemployed, 12_000, 5_000, 700))
        .expect("cohort");
    world
        .register_household_cohort(cohort(2, 2, 20, 10, EmploymentStatus::Employed, 2_400, 200, 0))
        .expect("cohort");
    world.regional_labor_market.insert(1, labor(1, 20, 0, 8, 0));
    let mut newport = labor(2, 1, 8, 0, 7);
    newport.offers = 3;
    newport.average_offered_wage = Money::from_minor_units(130);
    world.regional_labor_market.insert(2, newport);
    world
        .set_regional_housing_market(
            RegionId::new(2),
            RegionalHousingMarket::new(20, Money::from_minor_units(10)).expect("housing"),
        )
        .expect("housing market");
    world
}

fn totals(world: &World) -> (u64, i64, i64) {
    let people: u64 = world.household_cohorts().values().map(|c| c.people().people()).sum();
    let wealth: i64 = world.household_cohorts().values().map(|c| c.liquid_wealth().minor_units()).sum::<i64>()
        + world.countries()[&1].indicators.treasury.minor_units();
    let debt: i64 = world.household_cohorts().values().map(|c| c.debt().minor_units()).sum();
    (people, wealth, debt)
}

#[test]
fn one_household_moves_without_creating_people_money_or_debt() {
    let mut world = test_world();
    let before = totals(&world);
    let rows = world.execute_annual_internal_migration(world.date());
    assert_eq!(rows.len(), 1);
    assert_eq!(rows[0].people.people(), 2);
    assert_eq!(rows[0].households, 1);
    assert_eq!(rows[0].relocation_fee, Money::from_minor_units(10));
    assert_eq!(rows[0].destination_housing_pressure_basis_points, 5_500);
    assert_eq!(world.household_cohorts()[&rows[0].migrant_cohort.get()].region(), RegionId::new(2));
    assert_eq!(world.regions()[&1].population.people(), 98);
    assert_eq!(world.regions()[&2].population.people(), 22);
    let after = totals(&world);
    assert_eq!(before.0, after.0);
    assert_eq!(before.1, after.1);
    assert_eq!(before.2, after.2);
    world.validate_population_accounting().expect("balanced after migration");
}

#[test]
fn weak_pressure_or_missing_liquidity_prevents_migration() {
    let mut world = test_world();
    world.regional_labor_market.get_mut(&2).expect("labor").vacancy_pressure_months = 5;
    assert!(world.execute_annual_internal_migration(world.date()).is_empty());
    let mut full = test_world();
    full.set_regional_housing_market(
        RegionId::new(2),
        RegionalHousingMarket::new(10, Money::from_minor_units(10)).expect("housing"),
    )
    .expect("housing market");
    assert!(full.execute_annual_internal_migration(full.date()).is_empty());
    let mut poor = test_world();
    let mut drained = poor.household_cohorts()[&1];
    drained.liquid_wealth = Money::zero();
    poor.cohorts.insert(1, drained);
    assert!(poor.execute_annual_internal_migration(poor.date()).is_empty());
}

#[test]
fn the_migrant_takes_a_household_share_and_pays_the_fee() {
    let mut world = test_world();
    let rows = world.execute_annual_internal_migration(world.date());
    let migrant = world.household_cohorts()[&3];
    assert_eq!(rows[0].migrant_cohort, CohortId::new(3));
    assert_eq!(migrant.people().people(), 2);
    assert_eq!(migrant.households(), 1);
    assert_eq!(migrant.liquid_wealth(), Money::from_minor_units(100 - 10));
    assert_eq!(migrant.debt(), Money::from_minor_units(14));
    let source = world.household_cohorts()[&1];
    assert_eq!(source.people().people(), 98);
    assert_eq!(source.households(), 49);
    assert_eq!(source.liquid_wealth(), Money::from_minor_units(4_900));
    assert_eq!(source.debt(), Money::from_minor_units(686));
    assert_eq!(world.countries()[&1].indicators.treasury, Money::from_minor_units(10));
}

#[test]
fn a_housing_market_needs_dwellings_and_a_known_region() {
    assert_eq!(
        RegionalHousingMarket::new(0, Money::from_minor_units(10)),
        Err(WorldError::InvalidHousingMarket("housing market requires dwellings"))
    );
    assert_eq!(
        RegionalHousingMarket::new(5, Money::from_minor_units(-1)),
        Err(WorldError::InvalidHousingMarket("housing cost must not be negative"))
    );
    let mut world = test_world();
    let market = RegionalHousingMarket::new(5, Money::from_minor_units(1)).expect("housing");
    assert_eq!(world.set_regional_housing_market(RegionId::new(7), market), Err(WorldError::UnknownRegion(RegionId::new(7))));
}

#[test]
fn the_checked_migration_makes_the_same_moves() {
    let mut direct = test_world();
    let mut checked = test_world();
    let rows = direct.execute_annual_internal_migration(direct.date());
    let checked_rows = checked.try_execute_annual_internal_migration(checked.date()).expect("fits");
    assert_eq!(rows, checked_rows);
    assert_eq!(direct, checked);
}

#[test]
fn a_move_past_the_treasury_limit_is_refused_unchanged() {
    let mut world = test_world();
    let mut country = world.countries()[&1].clone();
    country.indicators.treasury = Money::from_minor_units(i64::MAX);
    world.countries.insert(1, country);
    let before = world.clone();
    assert_eq!(
        world.try_execute_annual_internal_migration(world.date()),
        Err(WorldError::ArithmeticOverflow("household migration"))
    );
    assert_eq!(world, before);
}
