use std::collections::BTreeMap;

use adam_core::demand::Good;
use adam_core::event::DomainEvent;
use adam_core::ids::{ActorId, CountryId, FirmId, GoodId, PowerNodeId, RecipeId, RegionId};
use adam_core::production::{Firm, ProductionRecipe};
use adam_core::rng::WorldSeed;
use adam_core::time::SimDate;
use adam_core::value::{BasisPoints, Money, Population, QuantityMilli};
use adam_core::world::{
    Actor, Country, CountryIndicators, PowerNode, PowerNodeKind, Region, World, WorldError,
};

fn reserve_world() -> World {
    let mut world = World::new(WorldSeed::new(19), SimDate::new(2025, 1).expect("date"));
    world
        .register_country(
            Country::new(CountryId::new(1), "A")
                .expect("country")
                .with_indicators(CountryIndicators::new(
                    Money::from_minor_units(100),
                    Money::default(),
                    BasisPoints::half(),
                    BasisPoints::half(),
                )),
        )
        .expect("country");
    world
        .register_region(
            Region::new(
                RegionId::new(1),
                CountryId::new(1),
                "R",
                Population::new(1),
                Money::from_minor_units(100),
            )
            .expect("region"),
        )
        .expect("region");
    world
        .register_actor(Actor::new(ActorId::new(1), "Minister", RegionId::new(1), 1980).expect("actor"))
        .expect("actor");
    world
        .register_power_node(
            PowerNode::new(
                PowerNodeId::new(1),
                CountryId::new(1),
                "Cabinet",
                PowerNodeKind::PoliticalOffice,
                Some(ActorId::new(1)),
            )
            .expect("office"),
        )
        .expect("office");
    world
        .register_good(Good::new(GoodId::new(1), "Food").expect("good"))
        .expect("good");
    world
        .register_production_recipe(
            ProductionRecipe::new(
                RecipeId::new(1),
                "Food recipe",
                GoodId::new(1),
                QuantityMilli::new(1_000),
                1,
                vec![],
            )
            .expect("recipe"),
        )
        .expect("recipe");
    let mut inventory = BTreeMap::new();
    inventory.insert(1, QuantityMilli::new(1_000));
    world
        .register_firm(
            Firm::new(
                FirmId::new(1),
                "Farm",
                RegionId::new(1),
                RecipeId::new(1),
                1,
                1,
                Money::default(),
                inventory,
            )
            .expect("firm"),
        )
        .expect("firm");
    world
}

#[test]
fn rejected_reserve_purchase_is_atomic() {
    let mut world = reserve_world();
    let before = world.clone();
    let result = world.procure_government_reserve(
        ActorId::new(1),
        FirmId::new(1),
        GoodId::new(1),
        QuantityMilli::new(1_000),
        Money::from_minor_units(101),
    );
    assert!(matches!(
        result,
        Err(WorldError::InsufficientTreasury(country)) if country == CountryId::new(1)
    ));
    assert_eq!(world, before);
}

#[test]
fn accepted_purchase_moves_stock_cash_and_treasury() {
    let mut world = reserve_world();
    let record = world
        .procure_government_reserve(
            ActorId::new(1),
            FirmId::new(1),
            GoodId::new(1),
            QuantityMilli::new(400),
            Money::from_minor_units(100),
        )
        .expect("purchase");
    assert_eq!(record.cost, Money::from_minor_units(40));
    assert_eq!(record.region, RegionId::new(1));
    assert_eq!(world.government_reserves()[&(1, 1)], QuantityMilli::new(400));
    assert_eq!(world.firms[&1].cash(), Money::from_minor_units(40));
    assert_eq!(world.firms[&1].inventory_of(GoodId::new(1)), QuantityMilli::new(600));
    assert_eq!(
        world.countries[&1].indicators().treasury(),
        Money::from_minor_units(60)
    );
    assert!(matches!(
        world.events().events().last().expect("event").event(),
        DomainEvent::GovernmentReserveProcured { .. }
    ));
}

#[test]
fn purchases_need_an_office_holder_and_positive_terms() {
    let mut world = reserve_world();
    assert_eq!(
        world.procure_government_reserve(
            ActorId::new(9),
            FirmId::new(1),
            GoodId::new(1),
            QuantityMilli::new(100),
            Money::from_minor_units(10),
        ),
        Err(WorldError::UnauthorizedGovernmentAction {
            actor: ActorId::new(9),
            country: CountryId::new(1)
        })
    );
    assert_eq!(
        world.procure_government_reserve(
            ActorId::new(1),
            FirmId::new(1),
            GoodId::new(1),
            QuantityMilli::new(0),
            Money::from_minor_units(10),
        ),
        Err(WorldError::InvalidEmergencyRelief(
            "reserve procurement requires positive quantity and price"
        ))
    );
    assert_eq!(
        world.procure_government_reserve(
            ActorId::new(1),
            FirmId::new(1),
            GoodId::new(1),
            QuantityMilli::new(5),
            Money::from_minor_units(10),
        ),
        Err(WorldError::InvalidEmergencyRelief(
            "reserve procurement cost must settle above zero"
        ))
    );
}

#[test]
fn reserve_priority_is_set_by_an_office_holder_of_the_regions_country() {
    let mut world = reserve_world();
    let priority = BasisPoints::new(2_500).expect("priority");
    world
        .set_government_reserve_priority(ActorId::new(1), CountryId::new(1), RegionId::new(1), GoodId::new(1), priority)
        .expect("priority");
    assert_eq!(world.government_reserve_priorities()[&(1, 1, 1)], priority);
    assert_eq!(
        world.set_government_reserve_priority(
            ActorId::new(1),
            CountryId::new(2),
            RegionId::new(1),
            GoodId::new(1),
            priority
        ),
        Err(WorldError::InvalidEmergencyRelief(
            "reserve priority region must belong to the selected country"
        ))
    );
}
