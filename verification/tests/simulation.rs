use adam_core::event::DomainEvent;
use adam_core::ids::{CountryId, RegionId};
use adam_core::rng::WorldSeed;
use adam_core::simulation::{close_budget, DEBT_INTEREST_BPS, DEBT_RESTRUCTURING_HAIRCUT_BPS};
use adam_core::time::SimDate;
use adam_core::value::{BasisPoints, Money, Population};
use adam_core::world::{Country, CountryIndicators, Region, World};

fn world_with(seed: u64, treasury: i64, debt: i64, legitimacy: u16, cohesion: u16) -> World {
    let indicators = CountryIndicators::new(
        Money::from_minor_units(treasury),
        Money::from_minor_units(debt),
        BasisPoints::new(legitimacy).expect("valid legitimacy"),
        BasisPoints::new(cohesion).expect("valid cohesion"),
    );
    let mut world = World::new(
        WorldSeed::new(seed),
        SimDate::new(2025, 1).expect("valid date"),
    );
    world
        .register_country(
            Country::new(CountryId::new(1), "A")
                .expect("country")
                .with_indicators(indicators),
        )
        .expect("country");
    world
        .register_region(
            Region::new(
                RegionId::new(1),
                CountryId::new(1),
                "Capital",
                Population::new(1_000_000),
                Money::from_minor_units(4_000_000_000_000),
            )
            .expect("region"),
        )
        .expect("region");
    world
}

fn economy(seed: u64, legitimacy: u16) -> World {
    world_with(seed, 0, 0, legitimacy, 5_000)
}

fn debt_of(world: &World) -> i128 {
    i128::from(world.countries()[&1].indicators().public_debt().minor_units())
}

fn fiscal(world: &World) -> (Money, Money) {
    world
        .events()
        .events()
        .iter()
        .find_map(|envelope| match envelope.event() {
            DomainEvent::CountryFiscalYearClosed { revenue, spending, .. } => Some((*revenue, *spending)),
            _ => None,
        })
        .expect("fiscal closure event")
}

#[test]
fn twin_years_are_identical() {
    let mut first = economy(47, 5_000);
    let mut second = first.clone();
    first.advance_years(20).expect("simulation succeeds");
    second.advance_years(20).expect("simulation succeeds");
    assert_eq!(first, second);
}

#[test]
fn seed_changes_history_not_only_fingerprint_header() {
    let mut first = economy(47, 5_000);
    let mut second = economy(48, 5_000);
    first.advance_one_year().expect("simulation succeeds");
    second.advance_one_year().expect("simulation succeeds");
    assert_ne!(first.regions(), second.regions());
}

#[test]
fn legitimacy_has_causal_demographic_effect() {
    let mut stable = economy(47, 8_000);
    let mut fragile = economy(47, 2_000);
    stable.advance_one_year().expect("simulation succeeds");
    fragile.advance_one_year().expect("simulation succeeds");
    let stable_population = stable.regions()[&1].population();
    let fragile_population = fragile.regions()[&1].population();
    assert!(stable_population > fragile_population);
}

#[test]
fn persistent_deficit_becomes_public_debt() {
    let mut world = economy(47, 5_000);
    world.advance_one_year().expect("simulation succeeds");
    assert!(world.countries()[&1].indicators().public_debt().minor_units() > 0);
}

#[test]
fn public_debt_interest_deepens_the_deficit_and_compounds_debt() {
    let mut indebted = world_with(47, 0, 1_000_000, 5_000, 5_000);
    let mut debt_free = world_with(47, 0, 0, 5_000, 5_000);
    indebted.advance_one_year().expect("simulation succeeds");
    debt_free.advance_one_year().expect("simulation succeeds");
    let interest = 1_000_000_i128 * DEBT_INTEREST_BPS / 10_000;
    assert_eq!(debt_of(&indebted) - debt_of(&debt_free), 1_000_000 + interest);
}

#[test]
fn debt_service_is_recorded_as_a_typed_domain_event() {
    let mut world = world_with(47, 0, 1_000_000, 5_000, 5_000);
    world.advance_one_year().expect("simulation succeeds");
    let charged = world
        .events()
        .events()
        .iter()
        .find_map(|envelope| match envelope.event() {
            DomainEvent::PublicDebtInterestCharged { country, opening_debt, interest } => {
                Some((*country, *opening_debt, *interest))
            }
            _ => None,
        })
        .expect("debt service event");
    assert_eq!(charged.0, CountryId::new(1));
    assert_eq!(charged.1, Money::from_minor_units(1_000_000));
    assert_eq!(charged.2, Money::from_minor_units(30_000));

    let mut debt_free = economy(47, 5_000);
    debt_free.advance_one_year().expect("simulation succeeds");
    assert!(!debt_free
        .events()
        .events()
        .iter()
        .any(|envelope| matches!(envelope.event(), DomainEvent::PublicDebtInterestCharged { .. })));
}

#[test]
fn public_debt_restrains_discretionary_spending() {
    let mut lean = world_with(61, 0, 0, 5_000, 5_000);
    let mut indebted = world_with(61, 0, 800_000_000_000, 5_000, 5_000);
    lean.advance_one_year().expect("simulation succeeds");
    indebted.advance_one_year().expect("simulation succeeds");
    let (lean_revenue, lean_spending) = fiscal(&lean);
    let (indebted_revenue, indebted_spending) = fiscal(&indebted);
    assert_eq!(lean_revenue.minor_units(), indebted_revenue.minor_units());
    assert!(indebted_spending.minor_units() < lean_spending.minor_units());
}

#[test]
fn unsustainable_public_debt_is_restructured_with_a_political_cost() {
    let mut crisis = world_with(47, 0, 15_000_000_000_000, 7_000, 7_000);
    let mut sustainable = world_with(47, 0, 100_000_000_000, 7_000, 7_000);
    crisis.advance_one_year().expect("crisis year closes");
    sustainable.advance_one_year().expect("sustainable year closes");
    let restructuring = crisis
        .events()
        .events()
        .iter()
        .find_map(|envelope| match envelope.event() {
            DomainEvent::PublicDebtRestructured {
                debt_before,
                debt_after,
                principal_written_off,
                ..
            } => Some((*debt_before, *debt_after, *principal_written_off)),
            _ => None,
        })
        .expect("restructuring event");
    assert_eq!(
        restructuring.0.minor_units() - restructuring.2.minor_units(),
        restructuring.1.minor_units()
    );
    assert_eq!(
        i128::from(restructuring.2.minor_units()) * 10_000,
        i128::from(restructuring.0.minor_units()) * DEBT_RESTRUCTURING_HAIRCUT_BPS
    );
    assert_eq!(crisis.countries()[&1].indicators().public_debt(), restructuring.1);
    assert!(
        crisis.countries()[&1].indicators().legitimacy().get()
            < sustainable.countries()[&1].indicators().legitimacy().get()
    );
    assert!(!sustainable
        .events()
        .events()
        .iter()
        .any(|event| matches!(event.event(), DomainEvent::PublicDebtRestructured { .. })));
}

#[test]
fn a_second_closure_of_the_same_year_is_refused_and_changes_nothing() {
    let mut world = economy(47, 5_000);
    world.advance_one_year().expect("simulation succeeds");
    world.last_annual_closure_year = Some(world.date().year());
    let before = world.clone();
    assert!(world.advance_one_year().is_err());
    assert_eq!(world, before);
}

#[test]
fn several_years_close_one_after_another() {
    let mut world = economy(47, 5_000);
    world.advance_years(3).expect("simulation succeeds");
    assert_eq!(world.date().year(), 2028);
    let mut stepwise = economy(47, 5_000);
    for _ in 0..3 {
        stepwise.advance_one_year().expect("simulation succeeds");
    }
    assert_eq!(world, stepwise);
}

#[test]
fn a_budget_too_large_for_the_currency_is_refused() {
    assert_eq!(
        close_budget(Money::from_minor_units(0), Money::from_minor_units(0), 1_i128 << 100),
        Err(adam_core::world::WorldError::ArithmeticOverflow("treasury closure"))
    );
    assert_eq!(
        close_budget(Money::from_minor_units(0), Money::from_minor_units(0), -(1_i128 << 100)),
        Err(adam_core::world::WorldError::ArithmeticOverflow("debt closure"))
    );
    assert_eq!(
        close_budget(Money::from_minor_units(10), Money::from_minor_units(4), 6),
        Ok((Money::from_minor_units(13), Money::from_minor_units(1)))
    );
}
