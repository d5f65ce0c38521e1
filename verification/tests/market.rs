use std::collections::BTreeMap;

use adam_core::demand::NeedTier;
use adam_core::ids::{CohortId, FirmId, GoodId, RegionId, RouteId};
use adam_core::market::{
    clear_local_market, clear_market_with_delivery, FirmMarketOfferPlan, MarketOffer,
    MarketOfferOutcome, MarketOrder,
};
use adam_core::value::{Money, QuantityMilli};
use adam_core::world::WorldError;

#[test]
fn scarce_supply_fills_buyers_in_canonical_order() {
    let orders = [
        MarketOrder {
            buyer: CohortId::new(2),
            tier: NeedTier::Survival,
            region: RegionId::new(1),
            good: GoodId::new(1),
            quantity: QuantityMilli::new(700),
            max_spend: Money::from_minor_units(100),
        },
        MarketOrder {
            buyer: CohortId::new(1),
            tier: NeedTier::Survival,
            region: RegionId::new(1),
            good: GoodId::new(1),
            quantity: QuantityMilli::new(700),
            max_spend: Money::from_minor_units(100),
        },
    ];
    let offers = [MarketOffer {
        seller: FirmId::new(1),
        region: RegionId::new(1),
        good: GoodId::new(1),
        quantity: QuantityMilli::new(1000),
        unit_price: Money::from_minor_units(10),
    }];
    let result = clear_local_market(&orders, &offers).expect("clear");
    assert_eq!(result.fills[0].buyer, CohortId::new(1));
    assert_eq!(
        result
            .unmet_of(CohortId::new(2), GoodId::new(1), NeedTier::Survival)
            .expect("unmet")
            .get(),
        400
    );
    assert_eq!(result.offer_outcomes.len(), 1);
    assert_eq!(result.offer_outcomes[0].sold.get(), 1_000);
    assert_eq!(result.offer_outcomes[0].unsold.get(), 0);
    assert_eq!(result.offer_outcomes[0].unmet_market_demand.get(), 400);
    assert!(result.offer_outcomes[0].sold_out_while_demand_remained());
}

#[test]
fn import_fills_are_limited_by_route_capacity() {
    let orders = [MarketOrder {
        buyer: CohortId::new(1),
        tier: NeedTier::Survival,
        region: RegionId::new(1),
        good: GoodId::new(1),
        quantity: QuantityMilli::new(1_000),
        max_spend: Money::from_minor_units(100),
    }];
    let offers = [MarketOffer {
        seller: FirmId::new(2),
        region: RegionId::new(2),
        good: GoodId::new(1),
        quantity: QuantityMilli::new(1_000),
        unit_price: Money::from_minor_units(10),
    }];
    let mut route_capacity = BTreeMap::from([(1_u32, 300_u64)]);
    let delivery = BTreeMap::from([((2_u32, 1_u32), (RouteId::new(1), Money::from_minor_units(1)))]);
    let result = clear_market_with_delivery(&orders, &offers, &mut route_capacity, &delivery)
        .expect("clear");
    assert_eq!(result.fills.len(), 1);
    assert_eq!(result.fills[0].quantity, QuantityMilli::new(300));
    assert_eq!(result.fills[0].spend, Money::from_minor_units(3));
    assert_eq!(
        result.unmet_of(CohortId::new(1), GoodId::new(1), NeedTier::Survival),
        Some(QuantityMilli::new(700))
    );
    assert_eq!(route_capacity[&1], 0);
}

#[test]
fn budgets_bind_fills_and_cheaper_local_offers_go_first() {
    let orders = [MarketOrder {
        buyer: CohortId::new(3),
        tier: NeedTier::Participation,
        region: RegionId::new(1),
        good: GoodId::new(1),
        quantity: QuantityMilli::new(5_000),
        max_spend: Money::from_minor_units(25),
    }];
    let offers = [
        MarketOffer {
            seller: FirmId::new(1),
            region: RegionId::new(1),
            good: GoodId::new(1),
            quantity: QuantityMilli::new(5_000),
            unit_price: Money::from_minor_units(20),
        },
        MarketOffer {
            seller: FirmId::new(2),
            region: RegionId::new(1),
            good: GoodId::new(1),
            quantity: QuantityMilli::new(1_000),
            unit_price: Money::from_minor_units(10),
        },
    ];
    let result = clear_local_market(&orders, &offers).expect("clear");
    assert_eq!(result.fills.len(), 2);
    assert_eq!(result.fills[0].seller, FirmId::new(2));
    assert_eq!(result.fills[0].quantity, QuantityMilli::new(1_000));
    assert_eq!(result.fills[0].spend, Money::from_minor_units(10));
    assert_eq!(result.fills[1].seller, FirmId::new(1));
    assert_eq!(result.fills[1].quantity, QuantityMilli::new(750));
    assert_eq!(result.fills[1].spend, Money::from_minor_units(15));
    assert_eq!(
        result.unmet_of(CohortId::new(3), GoodId::new(1), NeedTier::Participation),
        Some(QuantityMilli::new(3_250))
    );
    let bad = [MarketOffer {
        seller: FirmId::new(1),
        region: RegionId::new(1),
        good: GoodId::new(1),
        quantity: QuantityMilli::new(1),
        unit_price: Money::from_minor_units(0),
    }];
    assert_eq!(clear_local_market(&orders, &bad), Err(WorldError::InvalidPrice));
}

#[test]
fn an_offer_plan_offers_what_is_not_retained() {
    let plan = FirmMarketOfferPlan {
        seller: FirmId::new(1),
        region: RegionId::new(1),
        good: GoodId::new(1),
        inventory: QuantityMilli::new(1_000),
        average_monthly_sales: QuantityMilli::new(400),
        retained_inventory: QuantityMilli::new(400),
        offered: QuantityMilli::new(600),
        unit_price: Money::from_minor_units(11),
    };
    assert_eq!(plan.market_offer().expect("offer").quantity.get(), 600);
    let empty = FirmMarketOfferPlan {
        offered: QuantityMilli::new(0),
        ..plan
    };
    assert_eq!(empty.market_offer(), None);
    let outcome = MarketOfferOutcome {
        seller: FirmId::new(1),
        region: RegionId::new(1),
        good: GoodId::new(1),
        unit_price: Money::from_minor_units(10),
        offered: QuantityMilli::new(400),
        sold: QuantityMilli::new(300),
        unsold: QuantityMilli::new(100),
        unmet_market_demand: QuantityMilli::new(50),
    };
    assert!(!outcome.sold_out_while_demand_remained());
}

#[test]
fn clearing_accounts_for_every_unit_offered() {
    let order = |buyer: u32, quantity: u64, spend: i64| MarketOrder {
        buyer: CohortId::new(buyer),
        tier: NeedTier::Participation,
        region: RegionId::new(1),
        good: GoodId::new(1),
        quantity: QuantityMilli::new(quantity),
        max_spend: Money::from_minor_units(spend),
    };
    let offer = |seller: u32, quantity: u64, price: i64| MarketOffer {
        seller: FirmId::new(seller),
        region: RegionId::new(1),
        good: GoodId::new(1),
        quantity: QuantityMilli::new(quantity),
        unit_price: Money::from_minor_units(price),
    };
    let orders = [order(1, 900, 5), order(2, 1_500, 1_000), order(3, 300, 2)];
    let offers = [offer(1, 1_000, 10), offer(2, 800, 7), offer(3, 250, 12)];
    let result = clear_local_market(&orders, &offers).expect("clear");
    let filled: u64 = result.fills.iter().map(|fill| fill.quantity.get()).sum();
    let unsold: u64 = result.offer_outcomes.iter().map(|o| o.unsold.get()).sum();
    assert_eq!(filled + unsold, 2_050);
    for outcome in &result.offer_outcomes {
        assert_eq!(outcome.sold.get() + outcome.unsold.get(), outcome.offered.get());
    }
}

#[test]
fn every_order_is_delivered_or_left_unmet_and_every_payment_splits() {
    let orders = [MarketOrder {
        buyer: CohortId::new(1),
        tier: NeedTier::Survival,
        region: RegionId::new(1),
        good: GoodId::new(1),
        quantity: QuantityMilli::new(1_500),
        max_spend: Money::from_minor_units(1_000),
    }];
    let offers = [
        MarketOffer {
            seller: FirmId::new(1),
            region: RegionId::new(1),
            good: GoodId::new(1),
            quantity: QuantityMilli::new(500),
            unit_price: Money::from_minor_units(20),
        },
        MarketOffer {
            seller: FirmId::new(2),
            region: RegionId::new(2),
            good: GoodId::new(1),
            quantity: QuantityMilli::new(700),
            unit_price: Money::from_minor_units(10),
        },
    ];
    let mut route_capacity = BTreeMap::from([(1_u32, 10_000_u64)]);
    let delivery = BTreeMap::from([((2_u32, 1_u32), (RouteId::new(1), Money::from_minor_units(5)))]);
    let result = clear_market_with_delivery(&orders, &offers, &mut route_capacity, &delivery)
        .expect("clear");
    assert_eq!(result.fills.len(), 2);
    let delivered: u64 = result.fills.iter().map(|f| f.quantity.get()).sum();
    let unmet = result
        .unmet_of(CohortId::new(1), GoodId::new(1), NeedTier::Survival)
        .expect("unmet")
        .get();
    assert_eq!(delivered + unmet, 1_500);
    assert_eq!(unmet, 300);
    for fill in &result.fills {
        assert_eq!(
            fill.spend.minor_units(),
            fill.goods_spend.minor_units() + fill.freight_spend.minor_units()
        );
        if fill.route.is_none() {
            assert_eq!(fill.freight_spend, Money::zero());
        }
    }
    assert_eq!(result.fills[0].route, None);
    assert_eq!(result.fills[0].spend, Money::from_minor_units(10));
    assert_eq!(result.fills[1].route, Some(RouteId::new(1)));
    assert_eq!(result.fills[1].freight_spend, Money::from_minor_units(3));
}
