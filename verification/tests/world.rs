use adam_core::cohort::{AgeBand, EducationLevel, EmploymentStatus, HouseholdCohort};
use adam_core::ids::{ActorId, CohortId, CountryId, PowerNodeId, RegionId};
use adam_core::rng::WorldSeed;
use adam_core::time::SimDate;
use adam_core::value::{BasisPoints, Money, Population};
use adam_core::world::{
    Actor, Country, Influence, PowerNode, PowerNodeKind, Region, World, WorldError,
};

fn country(id: u32, name: &str) -> Country {
    Country::new(CountryId::new(id), name).expect("valid country")
}

fn empty_world() -> World {
    World::new(WorldSeed::new(1), SimDate::new(2025, 1).expect("valid date"))
}

#[test]
fn invalid_reference_does_not_emit_an_event() {
    let mut world = empty_world();
    let before = world.events().len();
    let region = Region::new(
        RegionId::new(1),
        CountryId::new(99),
        "Nowhere",
        Population::new(1),
        Money::from_minor_units(1),
    )
    .expect("valid region values");
    assert_eq!(
        world.register_region(region),
        Err(WorldError::UnknownCountry(CountryId::new(99)))
    );
    assert_eq!(world.events().len(), before);
}

#[test]
fn complete_power_graph_is_validated() {
    let mut world = empty_world();
    world.register_country(country(1, "A")).expect("country");
    world
        .register_region(
            Region::new(
                RegionId::new(1),
                CountryId::new(1),
                "Capital",
                Population::new(100),
                Money::from_minor_units(1_000),
            )
            .expect("region"),
        )
        .expect("region reference");
    world
        .register_actor(Actor::new(ActorId::new(1), "Ada", RegionId::new(1), 1980).expect("actor"))
        .expect("actor reference");
    world
        .register_power_node(
            PowerNode::new(
                PowerNodeId::new(1),
                CountryId::new(1),
                "Presidency",
                PowerNodeKind::PoliticalOffice,
                Some(ActorId::new(1)),
            )
            .expect("node"),
        )
        .expect("node references");
    world
        .establish_influence(Influence::new(
            ActorId::new(1),
            PowerNodeId::new(1),
            BasisPoints::new(7_500).expect("weight"),
        ))
        .expect("influence references");
    assert_eq!(world.regions().len(), 1);
    assert_eq!(world.actors().len(), 1);
    assert_eq!(world.power_nodes().len(), 1);
    assert_eq!(world.influences().len(), 1);
}

#[test]
fn blank_names_and_duplicates_are_refused() {
    assert_eq!(
        Country::new(CountryId::new(1), "  \t"),
        Err(WorldError::EmptyName("country"))
    );
    let mut world = empty_world();
    world.register_country(country(1, "A")).expect("country");
    let events = world.events().len();
    assert_eq!(
        world.register_country(country(1, "Again")),
        Err(WorldError::DuplicateCountry(CountryId::new(1)))
    );
    assert_eq!(world.events().len(), events);
    assert_eq!(world.countries()[&1].name(), "A");
}

#[test]
fn dangling_power_references_are_refused() {
    let mut world = empty_world();
    world.register_country(country(1, "A")).expect("country");
    assert_eq!(
        world.register_actor(Actor::new(ActorId::new(1), "Ada", RegionId::new(3), 1980).expect("actor")),
        Err(WorldError::UnknownRegion(RegionId::new(3)))
    );
    assert_eq!(
        world.register_power_node(
            PowerNode::new(
                PowerNodeId::new(1),
                CountryId::new(1),
                "Presidency",
                PowerNodeKind::PoliticalOffice,
                Some(ActorId::new(4)),
            )
            .expect("node")
        ),
        Err(WorldError::UnknownActor(ActorId::new(4)))
    );
    assert_eq!(
        world.establish_influence(Influence::new(
            ActorId::new(1),
            PowerNodeId::new(1),
            BasisPoints::half()
        )),
        Err(WorldError::UnknownActor(ActorId::new(1)))
    );
    assert!(world.power_nodes().is_empty());
    assert!(world.influences().is_empty());
}

#[test]
fn population_accounting_matches_regions_to_their_cohorts() {
    let mut world = World::new(WorldSeed::new(2), SimDate::new(2025, 1).expect("date"));
    world
        .register_country(Country::new(CountryId::new(1), "A").expect("country"))
        .expect("country");
    world
        .register_region(
            Region::new(RegionId::new(1), CountryId::new(1), "R", Population::new(300), Money::from_minor_units(1))
                .expect("region"),
        )
        .expect("region");
    let cohort = |id: u32, people: u64| {
        HouseholdCohort::new(
            CohortId::new(id),
            RegionId::new(1),
            Population::new(people),
            1,
            AgeBand::Adult,
            EducationLevel::Secondary,
            EmploymentStatus::Employed,
            Money::from_minor_units(0),
            Money::from_minor_units(0),
            Money::from_minor_units(0),
        )
    };
    world.register_household_cohort(cohort(1, 100)).expect("cohort");
    assert_eq!(
        world.validate_population_accounting(),
        Err(WorldError::PopulationAccounting {
            region: RegionId::new(1),
            region_population: Population::new(300),
            cohort_population: Population::new(100),
        })
    );
    world.register_household_cohort(cohort(2, 200)).expect("cohort");
    assert_eq!(world.validate_population_accounting(), Ok(()));
    assert_eq!(
        world.register_household_cohort(cohort(2, 5)),
        Err(WorldError::DuplicateCohort(CohortId::new(2)))
    );
    let mut stray = cohort(3, 5);
    stray.region = RegionId::new(9);
    assert_eq!(
        world.register_household_cohort(stray),
        Err(WorldError::UnknownRegion(RegionId::new(9)))
    );
}
