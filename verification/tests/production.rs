use std::collections::BTreeMap;

use adam_core::demand::Good;
use adam_core::ids::{CountryId, FirmId, GoodId, RecipeId, RegionId};
use adam_core::production::{Firm, ProductionInput, ProductionRecipe};
use adam_core::rng::WorldSeed;
use adam_core::time::SimDate;
use adam_core::value::{Money, Population, QuantityMilli};
use adam_core::world::{Country, Region, World, WorldError};

fn world(energy_inventory: u64, workers: u64) -> World {
    let mut w = World::new(WorldSeed::new(1), SimDate::new(2025, 1).expect("date"));
    w.register_country(Country::new(CountryId::new(1), "A").expect("country"))
        .expect("country");
    w.register_good(Good::new(GoodId::new(1), "Food").expect("good"))
        .expect("good");
    w.register_good(Good::new(GoodId::new(2), "Energy").expect("good"))
        .expect("good");
    w.register_region(
        Region::new(
            RegionId::new(1),
            CountryId::new(1),
            "R",
            Population::new(1),
            Money::from_minor_units(1),
        )
        .expect("region"),
    )
    .expect("region");
    w.register_production_recipe(
        ProductionRecipe::new(
            RecipeId::new(1),
            "Food recipe",
            GoodId::new(1),
            QuantityMilli::new(10_000),
            1_000,
            vec![ProductionInput::new(GoodId::new(2), QuantityMilli::new(2_000))],
        )
        .expect("recipe"),
    )
    .expect("recipe");
    let inventory = BTreeMap::from([(2_u32, QuantityMilli::new(energy_inventory))]);
    w.register_firm(
        Firm::new(
            FirmId::new(1),
            "Farm",
            RegionId::new(1),
            RecipeId::new(1),
            workers,
            100,
            Money::from_minor_units(1_000),
            inventory,
        )
        .expect("firm"),
    )
    .expect("firm");
    w
}

#[test]
fn intermediate_input_can_bind_output() {
    let plan = world(6_000, 100).plan_monthly_production().expect("plan");
    assert_eq!(plan[0].batches(), 3);
    assert_eq!(plan[0].limiting_factor(), "intermediate input");
}

#[test]
fn labor_can_bind_output() {
    let plan = world(1_000_000, 2).plan_monthly_production().expect("plan");
    assert_eq!(plan[0].batches(), 2);
    assert_eq!(plan[0].limiting_factor(), "labor");
}

#[test]
fn capital_capacity_binds_and_registration_checks_references() {
    let mut w = world(1_000_000, 1_000);
    let plan = w.plan_monthly_production().expect("plan");
    assert_eq!(plan[0].batches(), 100);
    assert_eq!(plan[0].limiting_factor(), "capital capacity");
    assert_eq!(plan[0].output().get(), 1_000_000);
    let orphan = Firm::new(
        FirmId::new(2),
        "Mill",
        RegionId::new(1),
        RecipeId::new(9),
        1,
        1,
        Money::from_minor_units(0),
        BTreeMap::new(),
    )
    .expect("firm");
    assert_eq!(w.register_firm(orphan), Err(WorldError::UnknownRecipe(RecipeId::new(9))));
    let unknown_input = ProductionRecipe::new(
        RecipeId::new(2),
        "Bread",
        GoodId::new(1),
        QuantityMilli::new(1_000),
        1_000,
        vec![ProductionInput::new(GoodId::new(5), QuantityMilli::new(1_000))],
    )
    .expect("recipe");
    assert_eq!(
        w.register_production_recipe(unknown_input),
        Err(WorldError::UnknownGood(GoodId::new(5)))
    );
}
