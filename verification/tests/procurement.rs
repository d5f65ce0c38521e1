use std::collections::BTreeMap;

use adam_core::demand::Good;
use adam_core::ids::{CountryId, FirmId, GoodId, RecipeId, RegionId, RouteId};
use adam_core::logistics::{LogisticsRoute, TransportMode};
use adam_core::market::MarketOffer;
use adam_core::procurement::FirmProcurementOrder;
use adam_core::production::{Firm, ProductionRecipe};
use adam_core::rng::WorldSeed;
use adam_core::time::SimDate;
use adam_core::value::{Money, Population, QuantityMilli};
use adam_core::world::{Country, Region, World, WorldError};

fn firm(id: u32, region: u32, cash: i64, stock: u64) -> Firm {
    let mut inventories = BTreeMap::new();
    if stock > 0 {
        inventories.insert(1, QuantityMilli::new(stock));
    }
    Firm::new(
        FirmId::new(id),
        "Works",
        RegionId::new(region),
        RecipeId::new(1),
        1,
        1,
        Money::from_minor_units(cash),
        inventories,
    )
    .expect("firm")
}

fn supply_world(buyer_cash: i64, local_stock: u64) -> World {
    let mut world = World::new(WorldSeed::new(3), SimDate::new(2025, 1).expect("date"));
    world
        .register_country(Country::new(CountryId::new(1), "A").expect("country"))
        .expect("country");
    world
        .register_good(Good::new(GoodId::new(1), "Ore").expect("good"))
        .expect("good");
    world
        .register_production_recipe(
            ProductionRecipe::new(RecipeId::new(1), "Smelting", GoodId::new(1), QuantityMilli::new(1_000), 1, vec![])
                .expect("recipe"),
        )
        .expect("recipe");
    for id in [1, 2] {
        world
            .register_region(
                Region::new(RegionId::new(id), CountryId::new(1), "Region", Population::new(0), Money::zero())
                    .expect("region"),
            )
            .expect("region");
    }
    world.register_firm(firm(1, 1, buyer_cash, 0)).expect("buyer");
    world.register_firm(firm(2, 1, 0, local_stock)).expect("local seller");
    world.register_firm(firm(3, 2, 0, 10_000)).expect("foreign seller");
    world.register_firm(firm(4, 2, 0, 0)).expect("carrier");
    world
        .register_logistics_route(
            LogisticsRoute::new(
                RouteId::new(1),
                RegionId::new(2),
                RegionId::new(1),
                TransportMode::Road,
                QuantityMilli::new(10_000),
                Money::from_minor_units(10),
                1,
                10_000,
            )
            .expect("route")
            .with_carrier(FirmId::new(4)),
        )
        .expect("route");
    world
}

fn offer(seller: u32, region: u32, quantity: u64, price: i64) -> MarketOffer {
    MarketOffer {
        seller: FirmId::new(seller),
        region: RegionId::new(region),
        good: GoodId::new(1),
        quantity: QuantityMilli::new(quantity),
        unit_price: Money::from_minor_units(price),
    }
}

fn order(quantity: u64) -> FirmProcurementOrder {
    FirmProcurementOrder {
        buyer: FirmId::new(1),
        region: RegionId::new(1),
        good: GoodId::new(1),
        quantity: QuantityMilli::new(quantity),
    }
}

fn delivery() -> BTreeMap<(u32, u32), (RouteId, Money)> {
    let mut table = BTreeMap::new();
    table.insert((2, 1), (RouteId::new(1), Money::from_minor_units(10)));
    table
}

fn cash(world: &World, id: u32) -> i64 {
    world.firms[&id].cash().minor_units()
}

fn stock(world: &World, id: u32) -> u64 {
    world.firms[&id].inventory_of(GoodId::new(1)).get()
}

#[test]
fn local_supply_comes_first_then_imports_pay_the_carrier() {
    let mut world = supply_world(100_000, 5_000);
    let mut offers = vec![offer(2, 1, 2_000, 50), offer(3, 2, 10_000, 20)];
    let mut capacity = BTreeMap::new();
    capacity.insert(1, 10_000);
    let settlement = world
        .settle_procurement_orders(&[order(5_000)], &mut offers, &mut capacity, &delivery())
        .expect("settled");
    assert_eq!(settlement.fills.len(), 2);
    assert_eq!(settlement.fills[0].seller, FirmId::new(2));
    assert_eq!(settlement.fills[0].spend, Money::from_minor_units(100));
    assert_eq!(settlement.fills[1].seller, FirmId::new(3));
    assert_eq!(settlement.fills[1].spend, Money::from_minor_units(90));
    assert_eq!(settlement.fills[1].goods_spend, Money::from_minor_units(60));
    assert_eq!(settlement.fills[1].freight_spend, Money::from_minor_units(30));
    assert!(settlement.unmet.is_empty());
    assert_eq!(settlement.purchases[&(1, 1)], (5_000, 190));
    assert_eq!(settlement.trade_prices[&(2, 1)], Money::from_minor_units(50));
    assert_eq!(settlement.trade_prices[&(3, 1)], Money::from_minor_units(20));
    assert_eq!(cash(&world, 1), 99_810);
    assert_eq!(cash(&world, 2), 100);
    assert_eq!(cash(&world, 3), 60);
    assert_eq!(cash(&world, 4), 30);
    assert_eq!(stock(&world, 1), 5_000);
    assert_eq!(stock(&world, 2), 3_000);
    assert_eq!(stock(&world, 3), 7_000);
    assert_eq!(offers[0].quantity, QuantityMilli::new(0));
    assert_eq!(offers[1].quantity, QuantityMilli::new(7_000));
    assert_eq!(capacity[&1], 7_000);
}

#[test]
fn exhausted_route_capacity_leaves_demand_unmet_and_flagged() {
    let mut world = supply_world(100_000, 5_000);
    let mut offers = vec![offer(2, 1, 2_000, 50), offer(3, 2, 10_000, 20)];
    let mut capacity = BTreeMap::new();
    capacity.insert(1, 1_000);
    let settlement = world
        .settle_procurement_orders(&[order(5_000)], &mut offers, &mut capacity, &delivery())
        .expect("settled");
    assert_eq!(settlement.unmet[&(1, 1)], QuantityMilli::new(2_000));
    assert!(settlement.capacity_limited.contains(&(1, 1)));
    assert!(settlement.constrained_routes.contains(&1));
    assert_eq!(capacity[&1], 0);
    assert_eq!(stock(&world, 1), 3_000);
}

#[test]
fn the_buyers_cash_limits_what_it_buys() {
    let mut world = supply_world(60, 5_000);
    let mut offers = vec![offer(2, 1, 2_000, 50), offer(3, 2, 10_000, 20)];
    let mut capacity = BTreeMap::new();
    let settlement = world
        .settle_procurement_orders(&[order(5_000)], &mut offers, &mut capacity, &delivery())
        .expect("settled");
    assert_eq!(settlement.fills.len(), 1);
    assert_eq!(settlement.fills[0].quantity, QuantityMilli::new(1_200));
    assert_eq!(cash(&world, 1), 0);
    assert_eq!(settlement.unmet[&(1, 1)], QuantityMilli::new(3_800));
    assert!(!settlement.capacity_limited.contains(&(1, 1)));
}

#[test]
fn a_seller_short_of_stock_fails_the_settlement_without_changing_firms() {
    let mut world = supply_world(100_000, 1_000);
    let before = world.clone();
    let mut offers = vec![offer(2, 1, 2_000, 50)];
    let mut capacity = BTreeMap::new();
    let result = world.settle_procurement_orders(&[order(5_000)], &mut offers, &mut capacity, &delivery());
    assert_eq!(
        result,
        Err(WorldError::InsufficientFirmInventory { firm: FirmId::new(2), good: GoodId::new(1) })
    );
    assert_eq!(world, before);
    assert_eq!(offers[0].quantity, QuantityMilli::new(2_000));
}

#[test]
fn a_firm_never_buys_its_own_offer() {
    let mut world = supply_world(100_000, 5_000);
    let mut offers = vec![offer(1, 1, 2_000, 50)];
    let mut capacity = BTreeMap::new();
    let settlement = world
        .settle_procurement_orders(&[order(1_000)], &mut offers, &mut capacity, &delivery())
        .expect("settled");
    assert!(settlement.fills.is_empty());
    assert_eq!(settlement.unmet[&(1, 1)], QuantityMilli::new(1_000));
}

#[test]
fn settlement_conserves_cash_and_goods_across_firms() {
    let mut world = supply_world(100_000, 5_000);
    let total_cash = |w: &World| (1..=4).map(|id| cash(w, id)).sum::<i64>();
    let total_stock = |w: &World| (1..=4).map(|id| stock(w, id)).sum::<u64>();
    let cash_before = total_cash(&world);
    let stock_before = total_stock(&world);
    let mut offers = vec![offer(2, 1, 2_000, 50), offer(3, 2, 10_000, 20)];
    let mut capacity = BTreeMap::new();
    capacity.insert(1, 10_000);
    world
        .settle_procurement_orders(&[order(5_000)], &mut offers, &mut capacity, &delivery())
        .expect("settled");
    assert_eq!(total_cash(&world), cash_before);
    assert_eq!(total_stock(&world), stock_before);
}

#[test]
fn offers_at_no_delivered_price_are_skipped() {
    let mut world = supply_world(100_000, 5_000);
    let mut offers = vec![offer(2, 1, 2_000, 0)];
    let mut capacity = BTreeMap::new();
    let settlement = world
        .settle_procurement_orders(&[order(1_000)], &mut offers, &mut capacity, &delivery())
        .expect("settled");
    assert!(settlement.fills.is_empty());
    assert_eq!(settlement.unmet[&(1, 1)], QuantityMilli::new(1_000));
}
