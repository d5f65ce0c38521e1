use adam_core::pricing::{milli_move, revised_price, share_bps, ObservedMarketPressure};
use adam_core::ids::{FirmId, GoodId, RegionId};
use adam_core::market::MarketOfferOutcome;
use adam_core::rng::WorldSeed;
use adam_core::time::SimDate;
use adam_core::value::{Money, QuantityMilli};
use adam_core::world::World;

const fn pressure(offered: u64, sold: u64, unsold: u64, unmet: u64) -> ObservedMarketPressure {
    ObservedMarketPressure {
        offered,
        sold,
        unsold,
        unmet,
    }
}

/// Settles the same market pressure for several months and reports the price.
fn settle(previous: i64, cost_floor: i64, pressure: ObservedMarketPressure, months: u32) -> i64 {
    let mut price = previous;
    let mut carry = 0_i64;
    for _ in 0..months {
        let (revision, next_carry) = revised_price(
            Money::from_minor_units(price),
            Money::from_minor_units(cost_floor),
            pressure,
            carry,
        )
        .expect("revision");
        if let Some((revised, _)) = revision {
            price = revised.minor_units();
        }
        carry = next_carry;
    }
    price
}

#[test]
fn a_sold_out_market_reprices_at_once_by_the_observed_scarcity() {
    assert_eq!(settle(10, 0, pressure(1_000, 1_000, 0, 1_000), 1), 11);
}

#[test]
fn a_severe_shortage_produces_a_severe_price_shock() {
    assert_eq!(settle(100, 0, pressure(1_000, 1_000, 0, 9_000), 1), 122);
}

#[test]
fn a_fractional_move_of_a_cheap_price_is_carried_rather_than_rounded() {
    assert_eq!(settle(10, 0, pressure(1_000, 1_000, 0, 100), 1), 10);
    assert_eq!(settle(10, 0, pressure(1_000, 1_000, 0, 100), 6), 11);
}

#[test]
fn sustained_unsold_offers_cut_the_price() {
    assert_eq!(settle(10, 0, pressure(1_000, 0, 1_000, 0), 2), 9);
}

#[test]
fn unpaid_need_beside_unsold_stock_cuts_the_price_instead_of_raising_it() {
    assert_eq!(settle(10, 0, pressure(1_000, 0, 1_000, 1_000), 2), 9);
}

#[test]
fn a_price_at_variable_cost_is_never_cut_below_it() {
    assert_eq!(settle(10, 10, pressure(1_000, 0, 1_000, 0), 12), 10);
}

#[test]
fn a_price_below_variable_cost_goes_to_cost_at_once() {
    let (revision, _) = revised_price(
        Money::from_minor_units(10),
        Money::from_minor_units(100),
        pressure(1_000, 500, 500, 0),
        0,
    )
    .expect("revision");
    let (price, floor_binding) = revision.expect("the price moves");
    assert_eq!(price, Money::from_minor_units(100));
    assert!(floor_binding);
}

#[test]
fn a_market_that_cleared_exactly_leaves_the_price_alone() {
    assert_eq!(settle(10, 0, pressure(1_000, 1_000, 0, 0), 12), 10);
}

#[test]
fn shares_and_moves_are_exact() {
    assert_eq!(share_bps(1, 3), 3_333);
    assert_eq!(share_bps(5, 0), 0);
    assert_eq!(share_bps(9, 3), 10_000);
    assert_eq!(milli_move(10, 1_250), Ok(1_250));
    assert_eq!(milli_move(-10, 1_250), Ok(-1_250));
    assert!(milli_move(i128::MAX, 2).is_err());
    let (revision, carry) = revised_price(
        Money::from_minor_units(10),
        Money::from_minor_units(0),
        pressure(1_000, 1_000, 0, 100),
        0,
    )
    .expect("revision");
    assert_eq!(revision, None);
    assert_eq!(carry, 227);
}

#[test]
fn a_shortage_never_cuts_and_a_glut_never_raises() {
    let (up, carry_up) =
        revised_price(Money::from_minor_units(200), Money::from_minor_units(100), pressure(10, 10, 0, 10), 0)
            .expect("revision");
    let (raised, _) = up.expect("moved");
    assert_eq!(raised, Money::from_minor_units(225));
    assert_eq!(carry_up, 0);
    let (down, _) =
        revised_price(Money::from_minor_units(200), Money::from_minor_units(100), pressure(10, 5, 5, 0), 0)
            .expect("revision");
    let (cut, floored) = down.expect("moved");
    assert_eq!(cut, Money::from_minor_units(193));
    assert!(!floored);
}

fn outcome(seller: u32, region: u32, offered: u64, sold: u64, unmet: u64) -> MarketOfferOutcome {
    MarketOfferOutcome {
        seller: FirmId::new(seller),
        region: RegionId::new(region),
        good: GoodId::new(1),
        unit_price: Money::from_minor_units(10),
        offered: QuantityMilli::new(offered),
        sold: QuantityMilli::new(sold),
        unsold: QuantityMilli::new(offered - sold),
        unmet_market_demand: QuantityMilli::new(unmet),
    }
}

#[test]
fn market_pressure_sums_seller_books_and_keeps_the_largest_unmet_demand() {
    let mut world = World::new(WorldSeed::new(1), SimDate::new(2025, 1).expect("date"));
    world.monthly_firm_market_outcomes.insert(1, vec![outcome(1, 1, 5_000, 5_000, 400)]);
    world
        .monthly_firm_market_outcomes
        .insert(2, vec![outcome(2, 1, 3_000, 1_000, 700), outcome(2, 2, 2_000, 500, 0)]);
    let pressures = world.observed_market_pressure();
    assert_eq!(pressures.len(), 2);
    assert_eq!(pressures[&(1, 1)], pressure(8_000, 6_000, 2_000, 700));
    assert_eq!(pressures[&(2, 1)], pressure(2_000, 500, 1_500, 0));
    assert!(World::new(WorldSeed::new(1), SimDate::new(2025, 1).expect("date"))
        .observed_market_pressure()
        .is_empty());
}
