use vstd::prelude::*;
use std::collections::{BTreeMap, BTreeSet};

use crate::demand::{tier_index, tier_rank, NeedTier};
use crate::ids::{CohortId, FirmId, GoodId, RegionId, RouteId};
use crate::pricing::tdiv;
use crate::ranking::{
    index_at, is_strict_order, lemma_rank_bijection, ordered_by, place_by_rank, rank_in,
};
use crate::value::{Money, QuantityMilli};
use crate::world::WorldError;

verus! {

broadcast use {
    vstd::std_specs::btree::group_btree_axioms,
    crate::value::QuantityMilli::lemma_spec_from_view,
    crate::value::Money::lemma_spec_from_view,
};

/// A seller's offer of a good in its region at a unit price.
#[derive(Clone, Copy, Debug, PartialEq, Eq, Structural)]
pub struct MarketOffer {
    pub seller: FirmId,
    pub region: RegionId,
    pub good: GoodId,
    pub quantity: QuantityMilli,
    pub unit_price: Money,
}

/// A firm's planned offer: what it holds, keeps back and offers, and at what price.
#[derive(Clone, Copy, Debug, PartialEq, Eq, Structural)]
pub struct FirmMarketOfferPlan {
    pub seller: FirmId,
    pub region: RegionId,
    pub good: GoodId,
    pub inventory: QuantityMilli,
    pub average_monthly_sales: QuantityMilli,
    pub retained_inventory: QuantityMilli,
    pub offered: QuantityMilli,
    pub unit_price: Money,
}

impl FirmMarketOfferPlan {
    /// The offer this plan puts on the market, or `None` when it offers nothing.
    pub fn market_offer(self) -> (r: Option<MarketOffer>)
        ensures
            self.offered@ == 0 ==> r is None,
            self.offered@ != 0 ==> r == Some(
                MarketOffer {
                    seller: self.seller,
                    region: self.region,
                    good: self.good,
                    quantity: self.offered,
                    unit_price: self.unit_price,
                },
            ),
    {
        if self.offered.get() == 0 {
            None
        } else {
            Some(
                MarketOffer {
                    seller: self.seller,
                    region: self.region,
                    good: self.good,
                    quantity: self.offered,
                    unit_price: self.unit_price,
                },
            )
        }
    }
}

/// A household's order for a good, capped by what it may spend.
#[derive(Clone, Copy, Debug, PartialEq, Eq, Structural)]
pub struct MarketOrder {
    pub buyer: CohortId,
    pub tier: NeedTier,
    pub region: RegionId,
    pub good: GoodId,
    pub quantity: QuantityMilli,
    pub max_spend: Money,
}

/// One delivery from a seller to a buyer.
#[derive(Clone, Copy, Debug, PartialEq, Eq, Structural)]
pub struct MarketFill {
    pub buyer: CohortId,
    pub tier: NeedTier,
    pub seller: FirmId,
    pub good: GoodId,
    pub quantity: QuantityMilli,
    /// Total delivered payment debited from the household.
    pub spend: Money,
    /// Goods-price component credited to the seller.
    pub goods_spend: Money,
    /// Route-tariff component credited to the carrier.
    pub freight_spend: Money,
    pub route: Option<RouteId>,
}

/// What became of one offer: sold, unsold, and the demand its market left unmet.
#[derive(Clone, Copy, Debug, PartialEq, Eq, Structural)]
pub struct MarketOfferOutcome {
    pub seller: FirmId,
    pub region: RegionId,
    pub good: GoodId,
    pub unit_price: Money,
    pub offered: QuantityMilli,
    pub sold: QuantityMilli,
    pub unsold: QuantityMilli,
    pub unmet_market_demand: QuantityMilli,
}

impl MarketOfferOutcome {
    /// Whether the offer sold out while its market still had unmet demand.
    pub fn sold_out_while_demand_remained(self) -> (r: bool)
        ensures
            r == (self.offered@ > 0 && self.unsold@ == 0 && self.unmet_market_demand@ > 0),
    {
        self.offered.get() > 0 && self.unsold.get() == 0 && self.unmet_market_demand.get() > 0
    }
}

/// The result of clearing a market: fills in order, unmet demand by (buyer, good,
/// tier rank), one outcome per offer (in canonical offer order), and the routes whose
/// capacity bound a fill.
#[derive(Clone, Debug, PartialEq, Eq)]
pub struct MarketClearing {
    pub fills: Vec<MarketFill>,
    pub unmet: BTreeMap<(u32, u32, u32), QuantityMilli>,
    pub offer_outcomes: Vec<MarketOfferOutcome>,
    pub constrained_routes: BTreeSet<u32>,
}

impl MarketClearing {
    /// The unmet demand recorded for a buyer, good and tier.
    pub fn unmet_of(&self, buyer: CohortId, good: GoodId, tier: NeedTier) -> (r: Option<QuantityMilli>)
        ensures
            ({
                let key = (buyer@, good@, tier_rank(tier) as u32);
                &&& self.unmet@.contains_key(key) ==> r == Some(self.unmet@[key])
                &&& !self.unmet@.contains_key(key) ==> r is None
            }),
    {
        let key = (buyer.get(), good.get(), tier_index(tier) as u32);
        match self.unmet.get(&key) {
            Some(q) => Some(*q),
            None => None,
        }
    }
}

/// Lexicographic order on four integers.
pub open spec fn lex4_lt(a: (int, int, int, int), b: (int, int, int, int)) -> bool {
    a.0 < b.0 || (a.0 == b.0 && (a.1 < b.1 || (a.1 == b.1 && (a.2 < b.2 || (a.2 == b.2 && a.3
        < b.3)))))
}

/// Index `j` comes before index `i`: a smaller key, or the same key and an earlier index
/// (a stable sort by key).
pub open spec fn keyed_before(keys: Seq<(int, int, int, int)>) -> spec_fn(int, int) -> bool {
    |j: int, i: int| lex4_lt(keys[j], keys[i]) || (keys[j] == keys[i] && j < i)
}

/// Orders are served by region, good, tier (most urgent first) and buyer.
pub open spec fn order_key(o: MarketOrder) -> (int, int, int, int) {
    (o.region@ as int, o.good@ as int, tier_rank(o.tier), o.buyer@ as int)
}

/// Offers are listed by region, good, unit price and seller.
pub open spec fn offer_key(o: MarketOffer) -> (int, int, int, int) {
    (o.region@ as int, o.good@ as int, o.unit_price@ as int, o.seller@ as int)
}

/// The orders in the order they are served (stable).
pub open spec fn sorted_orders(orders: Seq<MarketOrder>) -> Seq<MarketOrder> {
    ordered_by(orders, keyed_before(orders.map_values(|o: MarketOrder| order_key(o))))
}

/// The offers in canonical order (stable).
pub open spec fn sorted_offers(offers: Seq<MarketOffer>) -> Seq<MarketOffer> {
    ordered_by(offers, keyed_before(offers.map_values(|o: MarketOffer| offer_key(o))))
}

/// A stable sort by key is a strict total order on indices.
pub proof fn lemma_keyed_before_strict(keys: Seq<(int, int, int, int)>)
    ensures
        is_strict_order(keyed_before(keys), keys.len() as int),
{
}

/// The delivery table: (origin region, destination region) to the route and tariff that
/// bring a good from one to the other.
pub type DeliveryTable = Map<(u32, u32), (RouteId, Money)>;

/// The state of a clearing: what is left of each offer, the route capacity, the fills,
/// the routes that bound a fill, the unmet demand and the unmet demand of each market.
pub struct ClearState {
    pub remaining: Seq<int>,
    pub capacity: Map<u32, u64>,
    pub fills: Seq<MarketFill>,
    pub constrained: Set<u32>,
    pub unmet: Map<(u32, u32, u32), u64>,
    pub by_market: Map<(u32, u32), u64>,
}

/// The local offers of `supply[0..k]` that can serve `order`, in offer order.
pub open spec fn local_upto(supply: Seq<MarketOffer>, remaining: Seq<int>, order: MarketOrder, k: int) -> Seq<
    int,
>
    decreases k,
{
    if k <= 0 {
        seq![]
    } else {
        let prev = local_upto(supply, remaining, order, k - 1);
        let i = k - 1;
        if supply[i].good == order.good && remaining[i] != 0 && supply[i].region == order.region {
            prev.push(i)
        } else {
            prev
        }
    }
}

/// Whether offer `i` is an import candidate for `order` under the delivery table.
pub open spec fn is_import(
    supply: Seq<MarketOffer>,
    remaining: Seq<int>,
    order: MarketOrder,
    table: DeliveryTable,
    i: int,
) -> bool {
    &&& supply[i].good == order.good
    &&& remaining[i] != 0
    &&& supply[i].region != order.region
    &&& order.tier == NeedTier::Survival
    &&& table.contains_key((supply[i].region@, order.region@))
}

/// The import candidates of `supply[0..k]` for `order` as (delivered price, offer
/// index, tariff, route), in offer order; an overflow when a delivered price leaves `i64`.
pub open spec fn imports_upto(
    supply: Seq<MarketOffer>,
    remaining: Seq<int>,
    order: MarketOrder,
    table: DeliveryTable,
    k: int,
) -> Result<Seq<(int, int, int, u32)>, WorldError>
    decreases k,
{
    if k <= 0 {
        Ok(seq![])
    } else {
        match imports_upto(supply, remaining, order, table, k - 1) {
            Err(e) => Err(e),
            Ok(prev) => {
                let i = k - 1;
                if is_import(supply, remaining, order, table, i) {
                    let (route, tariff) = table[(supply[i].region@, order.region@)];
                    let delivered = supply[i].unit_price@ + tariff@;
                    if delivered < i64::MIN || delivered > i64::MAX {
                        Err(WorldError::ArithmeticOverflow("market delivered price"))
                    } else {
                        Ok(prev.push((delivered, i, tariff@ as int, route@)))
                    }
                } else {
                    Ok(prev)
                }
            },
        }
    }
}

/// Imports are tried by delivered price, then origin region, then seller (stable).
pub open spec fn import_key(supply: Seq<MarketOffer>, e: (int, int, int, u32)) -> (int, int, int, int) {
    (e.0, supply[e.1].region@ as int, supply[e.1].seller@ as int, 0)
}

/// The offers `order` may buy from, as (offer index, tariff, route): local offers in
/// offer order, then, for survival needs, imports by delivered price.
pub open spec fn candidates(
    supply: Seq<MarketOffer>,
    remaining: Seq<int>,
    order: MarketOrder,
    table: DeliveryTable,
) -> Result<Seq<(int, int, Option<u32>)>, WorldError> {
    let locals = local_upto(supply, remaining, order, supply.len() as int);
    match imports_upto(supply, remaining, order, table, supply.len() as int) {
        Err(e) => Err(e),
        Ok(imports) => {
            let sorted = ordered_by(
                imports,
                keyed_before(imports.map_values(|e: (int, int, int, u32)| import_key(supply, e))),
            );
            Ok(
                locals.map_values(|i: int| (i, 0int, None::<u32>)) + sorted.map_values(
                    |e: (int, int, int, u32)| (e.1, e.2, Some(e.3)),
                ),
            )
        },
    }
}

/// `a` if it is smaller, else `b`.
pub open spec fn min_int(a: int, b: int) -> int {
    if a < b {
        a
    } else {
        b
    }
}

/// Whether an integer fits in `i64`.
pub open spec fn fits_i64(x: int) -> bool {
    i64::MIN <= x <= i64::MAX
}

/// One fill attempt of an order against one candidate, given what the order still
/// needs and may spend: the quantity is limited by the need, the offer's remainder,
/// what the budget affords at the delivered price and the route's capacity; a route
/// that binds is recorded. The answer is the new state, need and budget, or an overflow
/// together with the route capacity at that moment.
pub open spec fn fill_step(
    st: ClearState,
    need: int,
    budget: int,
    order: MarketOrder,
    supply: Seq<MarketOffer>,
    c: (int, int, Option<u32>),
) -> Result<(ClearState, int, int), (WorldError, Map<u32, u64>)> {
    if need == 0 {
        Ok((st, need, budget))
    } else {
        let offer = supply[c.0];
        let price = offer.unit_price@ + c.1;
        if !fits_i64(price) {
            Err((WorldError::ArithmeticOverflow("market delivered price"), st.capacity))
        } else {
            let raw = tdiv(budget * 1000, price);
            let affordable = if raw < 0 {
                0
            } else {
                raw
            };
            if affordable > u64::MAX {
                Err((WorldError::ArithmeticOverflow("market affordability"), st.capacity))
            } else {
                let route_limit = match c.2 {
                    Some(r) => if st.capacity.contains_key(r) {
                        st.capacity[r] as int
                    } else {
                        u64::MAX as int
                    },
                    None => u64::MAX as int,
                };
                let unconstrained = min_int(min_int(need, st.remaining[c.0]), affordable);
                let constrained = match c.2 {
                    Some(r) => if route_limit < unconstrained {
                        st.constrained.insert(r)
                    } else {
                        st.constrained
                    },
                    None => st.constrained,
                };
                let q = min_int(unconstrained, route_limit);
                if q == 0 {
                    Ok((ClearState { constrained, ..st }, need, budget))
                } else {
                    let spend = tdiv(price * q, 1000);
                    let goods = tdiv(offer.unit_price@ * q, 1000);
                    if !fits_i64(spend) {
                        Err((WorldError::ArithmeticOverflow("market spend"), st.capacity))
                    } else if !fits_i64(goods) {
                        Err((WorldError::ArithmeticOverflow("market goods spend"), st.capacity))
                    } else if !fits_i64(spend - goods) {
                        Err((WorldError::ArithmeticOverflow("market freight spend"), st.capacity))
                    } else if !fits_i64(budget - spend) {
                        Err((WorldError::ArithmeticOverflow("market budget"), st.capacity))
                    } else {
                        let capacity = match c.2 {
                            Some(r) => if st.capacity.contains_key(r) {
                                st.capacity.insert(r, (st.capacity[r] - q) as u64)
                            } else {
                                st.capacity
                            },
                            None => st.capacity,
                        };
                        let fill = MarketFill {
                            buyer: order.buyer,
                            tier: order.tier,
                            seller: offer.seller,
                            good: order.good,
                            quantity: QuantityMilli::spec_from(q as u64),
                            spend: Money::spec_from(spend as i64),
                            goods_spend: Money::spec_from(goods as i64),
                            freight_spend: Money::spec_from((spend - goods) as i64),
                            route: match c.2 {
                                Some(r) => Some(RouteId(r)),
                                None => None,
                            },
                        };
                        Ok(
                            (
                                ClearState {
                                    remaining: st.remaining.update(c.0, st.remaining[c.0] - q),
                                    capacity,
                                    fills: st.fills.push(fill),
                                    constrained,
                                    ..st
                                },
                                need - q,
                                budget - spend,
                            ),
                        )
                    }
                }
            }
        }
    }
}

/// Fills an order against its candidates in turn (stopping at the first overflow).
pub open spec fn fill_from(
    st: ClearState,
    need: int,
    budget: int,
    order: MarketOrder,
    supply: Seq<MarketOffer>,
    cands: Seq<(int, int, Option<u32>)>,
) -> Result<(ClearState, int, int), (WorldError, Map<u32, u64>)>
    decreases cands.len(),
{
    if cands.len() == 0 {
        Ok((st, need, budget))
    } else {
        match fill_step(st, need, budget, order, supply, cands[0]) {
            Err(e) => Err(e),
            Ok((st2, need2, budget2)) => fill_from(
                st2,
                need2,
                budget2,
                order,
                supply,
                cands.drop_first(),
            ),
        }
    }
}

/// Fills one order from its candidates: the new state and what stayed unmet, or an
/// overflow with the route capacity at that moment.
pub open spec fn order_fill(
    st: ClearState,
    order: MarketOrder,
    supply: Seq<MarketOffer>,
    table: DeliveryTable,
) -> Result<(ClearState, int), (WorldError, Map<u32, u64>)> {
    match candidates(supply, st.remaining, order, table) {
        Err(e) => Err((e, st.capacity)),
        Ok(cands) => match fill_from(
            st,
            order.quantity@ as int,
            order.max_spend@ as int,
            order,
            supply,
            cands,
        ) {
            Err(e) => Err(e),
            Ok((st2, need, _)) => Ok((st2, need)),
        },
    }
}

/// Serves one order: fills it from its candidates, then records what stayed unmet for
/// the buyer and for its market.
pub open spec fn order_step(
    st: ClearState,
    order: MarketOrder,
    supply: Seq<MarketOffer>,
    table: DeliveryTable,
) -> Result<ClearState, (WorldError, Map<u32, u64>)> {
    match order_fill(st, order, supply, table) {
        Err(e) => Err(e),
        Ok((st2, need)) => if need > 0 {
            let market = (order.region@, order.good@);
            let before = if st2.by_market.contains_key(market) {
                st2.by_market[market] as int
            } else {
                0
            };
            if before + need > u64::MAX {
                Err((WorldError::ArithmeticOverflow("market unmet demand"), st2.capacity))
            } else {
                Ok(
                    ClearState {
                        unmet: st2.unmet.insert(
                            (order.buyer@, order.good@, tier_rank(order.tier) as u32),
                            need as u64,
                        ),
                        by_market: st2.by_market.insert(market, (before + need) as u64),
                        ..st2
                    },
                )
            }
        } else {
            Ok(st2)
        },
    }
}

/// Serves the orders in turn (stopping at the first overflow).
pub open spec fn orders_from(
    st: ClearState,
    orders: Seq<MarketOrder>,
    supply: Seq<MarketOffer>,
    table: DeliveryTable,
) -> Result<ClearState, (WorldError, Map<u32, u64>)>
    decreases orders.len(),
{
    if orders.len() == 0 {
        Ok(st)
    } else {
        match order_step(st, orders[0], supply, table) {
            Err(e) => Err(e),
            Ok(st2) => orders_from(st2, orders.drop_first(), supply, table),
        }
    }
}

/// The outcome of each offer after clearing.
pub open spec fn offer_outcomes(supply: Seq<MarketOffer>, st: ClearState) -> Seq<MarketOfferOutcome> {
    Seq::new(
        supply.len(),
        |i: int|
            {
                let o = supply[i];
                let market = (o.region@, o.good@);
                MarketOfferOutcome {
                    seller: o.seller,
                    region: o.region,
                    good: o.good,
                    unit_price: o.unit_price,
                    offered: o.quantity,
                    sold: QuantityMilli::spec_from((o.quantity@ - st.remaining[i]) as u64),
                    unsold: QuantityMilli::spec_from(st.remaining[i] as u64),
                    unmet_market_demand: QuantityMilli::spec_from(
                        if st.by_market.contains_key(market) {
                            st.by_market[market]
                        } else {
                            0
                        },
                    ),
                }
            },
    )
}

/// The state a clearing starts from.
pub open spec fn initial_state(supply: Seq<MarketOffer>, capacity: Map<u32, u64>) -> ClearState {
    ClearState {
        remaining: supply.map_values(|o: MarketOffer| o.quantity@ as int),
        capacity,
        fills: seq![],
        constrained: Set::empty(),
        unmet: Map::empty(),
        by_market: Map::empty(),
    }
}

/// Whether every offer's price is positive.
pub open spec fn prices_positive(offers: Seq<MarketOffer>) -> bool {
    forall|i: int| 0 <= i < offers.len() ==> (#[trigger] offers[i]).unit_price@ > 0
}

/// Whether no delivered import price a survival order could face is zero.
pub open spec fn delivered_prices_nonzero(
    orders: Seq<MarketOrder>,
    offers: Seq<MarketOffer>,
    table: DeliveryTable,
) -> bool {
    forall|i: int, j: int|
        0 <= i < offers.len() && 0 <= j < orders.len() && (#[trigger] orders[j]).tier
            == NeedTier::Survival && (#[trigger] offers[i]).good == orders[j].good
            && offers[i].region != orders[j].region && offers[i].unit_price@ > 0
            && table.contains_key((offers[i].region@, orders[j].region@)) ==> offers[i].unit_price@
            + table[(offers[i].region@, orders[j].region@)].1@ != 0
}

/// Widens exec sort keys to integers.
pub open spec fn key_seq(keys: Seq<(i64, i64, i64, i64)>) -> Seq<(int, int, int, int)> {
    keys.map_values(|k: (i64, i64, i64, i64)| (k.0 as int, k.1 as int, k.2 as int, k.3 as int))
}

/// Whether key `a` is lexicographically smaller than key `b`.
pub(crate) fn key_lt(a: (i64, i64, i64, i64), b: (i64, i64, i64, i64)) -> (r: bool)
    ensures
        r == lex4_lt(
            (a.0 as int, a.1 as int, a.2 as int, a.3 as int),
            (b.0 as int, b.1 as int, b.2 as int, b.3 as int),
        ),
{
    a.0 < b.0 || (a.0 == b.0 && (a.1 < b.1 || (a.1 == b.1 && (a.2 < b.2 || (a.2 == b.2 && a.3
        < b.3)))))
}

/// The position of each index in a stable sort by `keys`.
pub(crate) fn ranks_of(keys: &Vec<(i64, i64, i64, i64)>) -> (r: Vec<usize>)
    ensures
        r@.len() == keys@.len(),
        forall|i: int|
            0 <= i < keys@.len() ==> r@[i] as int == rank_in(
                keyed_before(key_seq(keys@)),
                keys@.len() as int,
                i,
            ),
{
    let n = keys.len();
    let ghost ks = key_seq(keys@);
    let ghost before = keyed_before(ks);
    let mut out: Vec<usize> = Vec::new();
    let mut i: usize = 0;
    while i < n
        invariant
            n == keys@.len(),
            ks == key_seq(keys@),
            before == keyed_before(ks),
            i <= n,
            out@.len() == i,
            forall|k: int| 0 <= k < i ==> out@[k] as int == rank_in(before, n as int, k),
        decreases n - i,
    {
        let mut count: usize = 0;
        let mut j: usize = 0;
        while j < n
            invariant
                n == keys@.len(),
                ks == key_seq(keys@),
                before == keyed_before(ks),
                i < n,
                j <= n,
                count <= j,
                count as int == crate::apportion::count_upto(|x: int| before(x, i as int), j as int),
            decreases n - j,
        {
            let kj = keys[j];
            let ki = keys[i];
            if key_lt(kj, ki) || (kj.0 == ki.0 && kj.1 == ki.1 && kj.2 == ki.2 && kj.3 == ki.3 && j < i) {
                count = count + 1;
            }
            j = j + 1;
        }
        out.push(count);
        i = i + 1;
    }
    out
}

/// Copies a slice of plain values into a vector.
fn copy_slice<T: Copy>(s: &[T]) -> (r: Vec<T>)
    ensures
        r@ == s@,
{
    let mut out: Vec<T> = Vec::new();
    let mut i: usize = 0;
    while i < s.len()
        invariant
            i <= s@.len(),
            out@ == s@.take(i as int),
        decreases s@.len() - i,
    {
        out.push(s[i]);
        i = i + 1;
        assert(out@ =~= s@.take(i as int));
    }
    assert(out@ =~= s@);
    out
}

/// The orders in service order (see `sorted_orders`).
fn sort_orders(v: &Vec<MarketOrder>) -> (r: Vec<MarketOrder>)
    ensures
        r@ == sorted_orders(v@),
{
    let mut keys: Vec<(i64, i64, i64, i64)> = Vec::new();
    let mut i: usize = 0;
    while i < v.len()
        invariant
            i <= v@.len(),
            keys@.len() == i,
            forall|k: int| 0 <= k < i ==> key_seq(keys@)[k] == order_key(#[trigger] v@[k]),
        decreases v@.len() - i,
    {
        let o = v[i];
        keys.push(
            (o.region.get() as i64, o.good.get() as i64, tier_index(o.tier) as i64, o.buyer.get() as i64),
        );
        i = i + 1;
    }
    let ranks = ranks_of(&keys);
    proof {
        assert(key_seq(keys@) =~= v@.map_values(|o: MarketOrder| order_key(o)));
        lemma_keyed_before_strict(key_seq(keys@));
    }
    place_by_rank(v, &ranks, Ghost(keyed_before(key_seq(keys@))))
}

/// The offers in canonical order (see `sorted_offers`).
fn sort_offers(v: &Vec<MarketOffer>) -> (r: Vec<MarketOffer>)
    ensures
        r@ == sorted_offers(v@),
{
    let mut keys: Vec<(i64, i64, i64, i64)> = Vec::new();
    let mut i: usize = 0;
    while i < v.len()
        invariant
            i <= v@.len(),
            keys@.len() == i,
            forall|k: int| 0 <= k < i ==> key_seq(keys@)[k] == offer_key(#[trigger] v@[k]),
        decreases v@.len() - i,
    {
        let o = v[i];
        keys.push(
            (o.region.get() as i64, o.good.get() as i64, o.unit_price.minor_units(), o.seller.get() as i64),
        );
        i = i + 1;
    }
    let ranks = ranks_of(&keys);
    proof {
        assert(key_seq(keys@) =~= v@.map_values(|o: MarketOffer| offer_key(o)));
        lemma_keyed_before_strict(key_seq(keys@));
    }
    place_by_rank(v, &ranks, Ghost(keyed_before(key_seq(keys@))))
}

/// The remaining quantities as integers.
pub open spec fn rem_seq(remaining: Seq<u64>) -> Seq<int> {
    remaining.map_values(|x: u64| x as int)
}

/// Exec candidates as integers.
pub open spec fn cand_seq(v: Seq<(usize, i64, Option<u32>)>) -> Seq<(int, int, Option<u32>)> {
    v.map_values(|c: (usize, i64, Option<u32>)| (c.0 as int, c.1 as int, c.2))
}

/// Exec import entries as integers.
pub open spec fn import_seq(v: Seq<(i64, usize, i64, u32)>) -> Seq<(int, int, int, u32)> {
    v.map_values(|e: (i64, usize, i64, u32)| (e.0 as int, e.1 as int, e.2 as int, e.3))
}

/// A candidate that may serve `order`: a local offer of its good at no tariff, or an
/// import for a survival need over a listed route at that route's tariff.
pub open spec fn candidate_ok(
    supply: Seq<MarketOffer>,
    order: MarketOrder,
    table: DeliveryTable,
    c: (int, int, Option<u32>),
) -> bool {
    &&& 0 <= c.0 < supply.len()
    &&& supply[c.0].good == order.good
    &&& match c.2 {
        None => c.1 == 0 && supply[c.0].region == order.region,
        Some(r) => {
            &&& order.tier == NeedTier::Survival
            &&& supply[c.0].region != order.region
            &&& table.contains_key((supply[c.0].region@, order.region@))
            &&& c.1 == table[(supply[c.0].region@, order.region@)].1@
            &&& r == table[(supply[c.0].region@, order.region@)].0@
        },
    }
}

/// An overflow found among the first `k` offers persists for any longer prefix.
proof fn lemma_imports_error_persists(
    supply: Seq<MarketOffer>,
    remaining: Seq<int>,
    order: MarketOrder,
    table: DeliveryTable,
    k: int,
    n: int,
)
    requires
        0 <= k <= n,
        imports_upto(supply, remaining, order, table, k) is Err,
    ensures
        imports_upto(supply, remaining, order, table, n) == imports_upto(
            supply,
            remaining,
            order,
            table,
            k,
        ),
    decreases n - k,
{
    if n > k {
        lemma_imports_error_persists(supply, remaining, order, table, k, n - 1);
    }
}

/// The offers `order` may buy from (see `candidates`).
fn market_candidates(
    order: MarketOrder,
    supply: &Vec<MarketOffer>,
    remaining: &Vec<u64>,
    table: &BTreeMap<(u32, u32), (RouteId, Money)>,
) -> (r: Result<Vec<(usize, i64, Option<u32>)>, WorldError>)
    requires
        remaining@.len() == supply@.len(),
    ensures
        match candidates(supply@, rem_seq(remaining@), order, table@) {
            Err(e) => r == Err::<Vec<(usize, i64, Option<u32>)>, WorldError>(e),
            Ok(cs) => r matches Ok(v) && cand_seq(v@) == cs && forall|k: int|
                0 <= k < v@.len() ==> candidate_ok(supply@, order, table@, #[trigger] cand_seq(v@)[k]),
        },
{
    let ghost rs = rem_seq(remaining@);
    let n = supply.len();
    let mut locals: Vec<usize> = Vec::new();
    let mut k: usize = 0;
    while k < n
        invariant
            n == supply@.len(),
            remaining@.len() == n,
            rs == rem_seq(remaining@),
            k <= n,
            locals@.map_values(|x: usize| x as int) == local_upto(supply@, rs, order, k as int),
            forall|j: int|
                0 <= j < locals@.len() ==> candidate_ok(
                    supply@,
                    order,
                    table@,
                    (#[trigger] locals@[j] as int, 0int, None::<u32>),
                ),
        decreases n - k,
    {
        let offer = supply[k];
        let ghost before = locals@;
        if offer.good == order.good && remaining[k] != 0 && offer.region == order.region {
            locals.push(k);
            assert(locals@.map_values(|x: usize| x as int) =~= before.map_values(|x: usize| x as int).push(k as int));
        }
        k = k + 1;
    }
    let mut imports: Vec<(i64, usize, i64, u32)> = Vec::new();
    assert(import_seq(imports@) =~= Seq::<(int, int, int, u32)>::empty());
    let mut k: usize = 0;
    while k < n
        invariant
            n == supply@.len(),
            remaining@.len() == n,
            rs == rem_seq(remaining@),
            k <= n,
            imports_upto(supply@, rs, order, table@, k as int) == Ok::<
                Seq<(int, int, int, u32)>,
                WorldError,
            >(import_seq(imports@)),
            forall|j: int|
                0 <= j < imports@.len() ==> {
                    let e = #[trigger] imports@[j];
                    &&& (e.1 as int) < n
                    &&& candidate_ok(supply@, order, table@, (e.1 as int, e.2 as int, Some(e.3)))
                },
        decreases n - k,
    {
        let offer = supply[k];
        let ghost before = imports@;
        if offer.good == order.good && remaining[k] != 0 && offer.region != order.region
            && order.tier == NeedTier::Survival {
            match table.get(&(offer.region.get(), order.region.get())) {
                Some(entry) => {
                    let (route, tariff) = *entry;
                    let delivered = match offer.unit_price.minor_units().checked_add(tariff.minor_units()) {
                        Some(v) => v,
                        None => {
                            proof {
                                lemma_imports_error_persists(supply@, rs, order, table@, k as int + 1, n as int);
                            }
                            return Err(WorldError::ArithmeticOverflow("market delivered price"));
                        },
                    };
                    imports.push((delivered, k, tariff.minor_units(), route.get()));
                    assert(import_seq(imports@) =~= import_seq(before).push(
                        (delivered as int, k as int, tariff@ as int, route@),
                    ));
                },
                None => {},
            }
        }
        k = k + 1;
    }
    let mut keys: Vec<(i64, i64, i64, i64)> = Vec::new();
    let mut k: usize = 0;
    while k < imports.len()
        invariant
            k <= imports@.len(),
            keys@.len() == k,
            forall|j: int| 0 <= j < imports@.len() ==> (#[trigger] imports@[j]).1 < supply@.len(),
            forall|j: int|
                0 <= j < k ==> key_seq(keys@)[j] == import_key(supply@, #[trigger] import_seq(imports@)[j]),
        decreases imports@.len() - k,
    {
        let e = imports[k];
        let offer = supply[e.1];
        keys.push((e.0, offer.region.get() as i64, offer.seller.get() as i64, 0));
        k = k + 1;
    }
    let ranks = ranks_of(&keys);
    let ghost before_fn = keyed_before(key_seq(keys@));
    proof {
        assert(key_seq(keys@) =~= import_seq(imports@).map_values(
            |e: (int, int, int, u32)| import_key(supply@, e),
        ));
        lemma_keyed_before_strict(key_seq(keys@));
        lemma_rank_bijection(before_fn, imports@.len() as int);
    }
    let sorted = place_by_rank(&imports, &ranks, Ghost(before_fn));
    let mut out: Vec<(usize, i64, Option<u32>)> = Vec::new();
    let mut k: usize = 0;
    while k < locals.len()
        invariant
            k <= locals@.len(),
            out@.len() == k,
            forall|j: int| 0 <= j < k ==> #[trigger] cand_seq(out@)[j] == (locals@[j] as int, 0int, None::<u32>),
            forall|j: int|
                0 <= j < locals@.len() ==> candidate_ok(
                    supply@,
                    order,
                    table@,
                    (#[trigger] locals@[j] as int, 0int, None::<u32>),
                ),
        decreases locals@.len() - k,
    {
        let ghost prev = out@;
        out.push((locals[k], 0, None));
        proof {
            assert forall|j: int| 0 <= j < k + 1 implies #[trigger] cand_seq(out@)[j] == (
                locals@[j] as int,
                0int,
                None::<u32>,
            ) by {
                if j < k {
                    assert(out@[j] == prev[j]);
                    assert(cand_seq(prev)[j] == (locals@[j] as int, 0int, None::<u32>));
                }
            }
        }
        k = k + 1;
    }
    let nl = locals.len();
    let mut k: usize = 0;
    while k < sorted.len()
        invariant
            k <= sorted@.len(),
            nl == locals@.len(),
            sorted@ == ordered_by(imports@, before_fn),
            sorted@.len() == imports@.len(),
            out@.len() == nl + k,
            forall|j: int| 0 <= j < nl ==> #[trigger] cand_seq(out@)[j] == (locals@[j] as int, 0int, None::<u32>),
            forall|j: int|
                0 <= j < k ==> #[trigger] cand_seq(out@)[nl + j] == (
                    sorted@[j].1 as int,
                    sorted@[j].2 as int,
                    Some(sorted@[j].3),
                ),
            forall|j: int|
                0 <= j < locals@.len() ==> candidate_ok(
                    supply@,
                    order,
                    table@,
                    (#[trigger] locals@[j] as int, 0int, None::<u32>),
                ),
            forall|j: int|
                0 <= j < imports@.len() ==> {
                    let e = #[trigger] imports@[j];
                    &&& (e.1 as int) < supply@.len()
                    &&& candidate_ok(supply@, order, table@, (e.1 as int, e.2 as int, Some(e.3)))
                },
            forall|r: int|
                0 <= r < imports@.len() ==> 0 <= #[trigger] index_at(before_fn, imports@.len() as int, r)
                    < imports@.len(),
        decreases sorted@.len() - k,
    {
        let e = sorted[k];
        let ghost prev = out@;
        out.push((e.1, e.2, Some(e.3)));
        proof {
            assert forall|j: int| 0 <= j < nl implies #[trigger] cand_seq(out@)[j] == (
                locals@[j] as int,
                0int,
                None::<u32>,
            ) by {
                assert(out@[j] == prev[j]);
                assert(cand_seq(prev)[j] == (locals@[j] as int, 0int, None::<u32>));
            }
            assert forall|j: int| 0 <= j < k + 1 implies #[trigger] cand_seq(out@)[nl + j] == (
                sorted@[j].1 as int,
                sorted@[j].2 as int,
                Some(sorted@[j].3),
            ) by {
                if j < k {
                    assert(out@[nl + j] == prev[nl + j]);
                    assert(cand_seq(prev)[nl + j] == (sorted@[j].1 as int, sorted@[j].2 as int, Some(sorted@[j].3)));
                }
            }
        }
        k = k + 1;
    }
    proof {
        let cs = locals@.map_values(|x: usize| x as int).map_values(|i: int| (i, 0int, None::<u32>))
            + ordered_by(
            import_seq(imports@),
            keyed_before(import_seq(imports@).map_values(|e: (int, int, int, u32)| import_key(supply@, e))),
        ).map_values(|e: (int, int, int, u32)| (e.1, e.2, Some(e.3)));
        assert(key_seq(keys@) =~= import_seq(imports@).map_values(
            |e: (int, int, int, u32)| import_key(supply@, e),
        ));
        assert forall|j: int| 0 <= j < out@.len() implies cand_seq(out@)[j] == cs[j] by {
            if j < nl {
            } else {
                let r = j - nl;
                assert(cand_seq(out@)[nl + r] == (sorted@[r].1 as int, sorted@[r].2 as int, Some(sorted@[r].3)));
            }
        }
        assert(cand_seq(out@) =~= cs);
        assert forall|j: int| 0 <= j < out@.len() implies candidate_ok(
            supply@,
            order,
            table@,
            #[trigger] cand_seq(out@)[j],
        ) by {
            if j < nl {
                assert(candidate_ok(supply@, order, table@, (locals@[j] as int, 0int, None::<u32>)));
            } else {
                let r = j - nl;
                let i = index_at(before_fn, imports@.len() as int, r);
                assert(sorted@[r] == imports@[i]);
                assert(cand_seq(out@)[nl + r] == (sorted@[r].1 as int, sorted@[r].2 as int, Some(sorted@[r].3)));
            }
        }
    }
    Ok(out)
}

/// The clearing state held by exec values.
pub open spec fn state_of(
    remaining: Seq<u64>,
    capacity: Map<u32, u64>,
    fills: Seq<MarketFill>,
    constrained: Set<u32>,
    unmet: Map<(u32, u32, u32), u64>,
    by_market: Map<(u32, u32), u64>,
) -> ClearState {
    ClearState {
        remaining: rem_seq(remaining),
        capacity,
        fills,
        constrained,
        unmet,
        by_market,
    }
}

/// Whether no delivered import price `order` could face is zero.
pub open spec fn import_prices_nonzero(order: MarketOrder, supply: Seq<MarketOffer>, table: DeliveryTable) -> bool {
    forall|i: int|
        0 <= i < supply.len() && order.tier == NeedTier::Survival && (#[trigger] supply[i]).good
            == order.good && supply[i].region != order.region && supply[i].unit_price@ > 0
            && table.contains_key((supply[i].region@, order.region@)) ==> supply[i].unit_price@
            + table[(supply[i].region@, order.region@)].1@ != 0
}

/// One fill attempt (see `fill_step`).
#[verifier::rlimit(40)]
fn fill_one(
    order: MarketOrder,
    supply: &Vec<MarketOffer>,
    c: (usize, i64, Option<u32>),
    need: &mut u64,
    budget: &mut i64,
    remaining: &mut Vec<u64>,
    capacity: &mut BTreeMap<u32, u64>,
    fills: &mut Vec<MarketFill>,
    constrained: &mut BTreeSet<u32>,
    unmet: Ghost<Map<(u32, u32, u32), u64>>,
    by_market: Ghost<Map<(u32, u32), u64>>,
) -> (r: Result<(), WorldError>)
    requires
        old(remaining)@.len() == supply@.len(),
        (c.0 as int) < supply@.len(),
        supply@[c.0 as int].unit_price@ + c.1 != 0,
    ensures
        final(remaining)@.len() == supply@.len(),
        forall|i: int| 0 <= i < supply@.len() ==> #[trigger] final(remaining)@[i] <= old(remaining)@[i],
        match fill_step(
            state_of(old(remaining)@, old(capacity)@, old(fills)@, old(constrained)@, unmet@, by_market@),
            *old(need) as int,
            *old(budget) as int,
            order,
            supply@,
            (c.0 as int, c.1 as int, c.2),
        ) {
            Err((e, cap)) => r == Err::<(), WorldError>(e) && final(capacity)@ == cap,
            Ok((st, n2, b2)) => r is Ok && st == state_of(
                final(remaining)@,
                final(capacity)@,
                final(fills)@,
                final(constrained)@,
                unmet@,
                by_market@,
            ) && *final(need) as int == n2 && *final(budget) as int == b2,
        },
{
    if *need == 0 {
        return Ok(());
    }
    let offer = supply[c.0];
    let price: i64 = match offer.unit_price.minor_units().checked_add(c.1) {
        Some(p) => p,
        None => {
            return Err(WorldError::ArithmeticOverflow("market delivered price"));
        },
    };
    let wide_budget: i128 = *budget as i128 * 1000;
    let raw: i128 = crate::pricing::trunc_div(wide_budget, price as i128);
    let affordable_wide: i128 = if raw < 0 {
        0
    } else {
        raw
    };
    if affordable_wide > u64::MAX as i128 {
        return Err(WorldError::ArithmeticOverflow("market affordability"));
    }
    let affordable = affordable_wide as u64;
    let route_limit: u64 = match c.2 {
        Some(r) => match capacity.get(&r) {
            Some(v) => *v,
            None => u64::MAX,
        },
        None => u64::MAX,
    };
    let mut unconstrained = *need;
    if remaining[c.0] < unconstrained {
        unconstrained = remaining[c.0];
    }
    if affordable < unconstrained {
        unconstrained = affordable;
    }
    match c.2 {
        Some(r) => {
            if route_limit < unconstrained {
                constrained.insert(r);
            }
        },
        None => {},
    }
    let q = if unconstrained < route_limit {
        unconstrained
    } else {
        route_limit
    };
    if q == 0 {
        return Ok(());
    }
    proof {
        let p = price as int;
        let qq = q as int;
        assert(-0x8000_0000_0000_0000 * 0xffff_ffff_ffff_ffff <= p * qq <= 0x7fff_ffff_ffff_ffff
            * 0xffff_ffff_ffff_ffff) by (nonlinear_arith)
            requires
                -0x8000_0000_0000_0000 <= p <= 0x7fff_ffff_ffff_ffff,
                0 <= qq <= 0xffff_ffff_ffff_ffff,
        ;
        let u = offer.unit_price@ as int;
        assert(-0x8000_0000_0000_0000 * 0xffff_ffff_ffff_ffff <= u * qq <= 0x7fff_ffff_ffff_ffff
            * 0xffff_ffff_ffff_ffff) by (nonlinear_arith)
            requires
                -0x8000_0000_0000_0000 <= u <= 0x7fff_ffff_ffff_ffff,
                0 <= qq <= 0xffff_ffff_ffff_ffff,
        ;
    }
    let spend_wide: i128 = price as i128 * q as i128 / 1000;
    if spend_wide < i64::MIN as i128 || spend_wide > i64::MAX as i128 {
        return Err(WorldError::ArithmeticOverflow("market spend"));
    }
    let goods_wide: i128 = offer.unit_price.minor_units() as i128 * q as i128 / 1000;
    if goods_wide < i64::MIN as i128 || goods_wide > i64::MAX as i128 {
        return Err(WorldError::ArithmeticOverflow("market goods spend"));
    }
    let spend = spend_wide as i64;
    let goods_spend = goods_wide as i64;
    let freight_spend = match spend.checked_sub(goods_spend) {
        Some(v) => v,
        None => {
            return Err(WorldError::ArithmeticOverflow("market freight spend"));
        },
    };
    let next_budget = match budget.checked_sub(spend) {
        Some(v) => v,
        None => {
            return Err(WorldError::ArithmeticOverflow("market budget"));
        },
    };
    *need = *need - q;
    let left = remaining[c.0] - q;
    remaining.set(c.0, left);
    *budget = next_budget;
    match c.2 {
        Some(r) => {
            match capacity.get(&r) {
                Some(v) => {
                    let rest = *v - q;
                    capacity.insert(r, rest);
                },
                None => {},
            }
        },
        None => {},
    }
    let route = match c.2 {
        Some(r) => Some(RouteId::new(r)),
        None => None,
    };
    fills.push(
        MarketFill {
            buyer: order.buyer,
            tier: order.tier,
            seller: offer.seller,
            good: order.good,
            quantity: QuantityMilli::new(q),
            spend: Money::from_minor_units(spend),
            goods_spend: Money::from_minor_units(goods_spend),
            freight_spend: Money::from_minor_units(freight_spend),
            route,
        },
    );
    proof {
        assert(rem_seq(remaining@) =~= rem_seq(old(remaining)@).update(
            c.0 as int,
            rem_seq(old(remaining)@)[c.0 as int] - q,
        ));
    }
    Ok(())
}

/// Fills one order from its candidates (see `order_fill`), returning what stayed unmet.
fn fill_market_order(
    order: MarketOrder,
    supply: &Vec<MarketOffer>,
    remaining: &mut Vec<u64>,
    capacity: &mut BTreeMap<u32, u64>,
    table: &BTreeMap<(u32, u32), (RouteId, Money)>,
    fills: &mut Vec<MarketFill>,
    constrained: &mut BTreeSet<u32>,
    unmet: Ghost<Map<(u32, u32, u32), u64>>,
    by_market: Ghost<Map<(u32, u32), u64>>,
) -> (r: Result<u64, WorldError>)
    requires
        old(remaining)@.len() == supply@.len(),
        prices_positive(supply@),
        import_prices_nonzero(order, supply@, table@),
    ensures
        final(remaining)@.len() == supply@.len(),
        forall|i: int| 0 <= i < supply@.len() ==> #[trigger] final(remaining)@[i] <= old(remaining)@[i],
        match order_fill(
            state_of(old(remaining)@, old(capacity)@, old(fills)@, old(constrained)@, unmet@, by_market@),
            order,
            supply@,
            table@,
        ) {
            Err((e, cap)) => r == Err::<u64, WorldError>(e) && final(capacity)@ == cap,
            Ok((st, need)) => r == Ok::<u64, WorldError>(need as u64) && st == state_of(
                final(remaining)@,
                final(capacity)@,
                final(fills)@,
                final(constrained)@,
                unmet@,
                by_market@,
            ) && 0 <= need <= u64::MAX,
        },
{
    let ghost st0 = state_of(remaining@, capacity@, fills@, constrained@, unmet@, by_market@);
    let cands = match market_candidates(order, supply, remaining, table) {
        Ok(c) => c,
        Err(e) => {
            return Err(e);
        },
    };
    let ghost cs = cand_seq(cands@);
    let ghost rem0 = remaining@;
    let mut need: u64 = order.quantity.get();
    let mut budget: i64 = order.max_spend.minor_units();
    proof {
        assert(cs.subrange(0, cs.len() as int) =~= cs);
    }
    let mut k: usize = 0;
    while k < cands.len()
        invariant
            k <= cands@.len(),
            cs == cand_seq(cands@),
            rem0 == old(remaining)@,
            st0 == state_of(old(remaining)@, old(capacity)@, old(fills)@, old(constrained)@, unmet@, by_market@),
            candidates(supply@, rem_seq(old(remaining)@), order, table@) == Ok::<
                Seq<(int, int, Option<u32>)>,
                WorldError,
            >(cs),
            remaining@.len() == supply@.len(),
            rem0.len() == supply@.len(),
            prices_positive(supply@),
            import_prices_nonzero(order, supply@, table@),
            forall|j: int| 0 <= j < cands@.len() ==> candidate_ok(supply@, order, table@, #[trigger] cs[j]),
            forall|i: int| 0 <= i < supply@.len() ==> #[trigger] remaining@[i] <= rem0[i],
            fill_from(st0, order.quantity@ as int, order.max_spend@ as int, order, supply@, cs)
                == fill_from(
                state_of(remaining@, capacity@, fills@, constrained@, unmet@, by_market@),
                need as int,
                budget as int,
                order,
                supply@,
                cs.subrange(k as int, cs.len() as int),
            ),
        decreases cands@.len() - k,
    {
        let c = cands[k];
        proof {
            let sub = cs.subrange(k as int, cs.len() as int);
            assert(sub[0] == cs[k as int]);
            assert(sub.drop_first() =~= cs.subrange(k as int + 1, cs.len() as int));
            assert(candidate_ok(supply@, order, table@, cs[k as int]));
            assert(cs[k as int] == (c.0 as int, c.1 as int, c.2));
            let o = supply@[c.0 as int];
            assert(o.unit_price@ > 0);
        }
        let ghost before_rem = remaining@;
        let ghost st_k = state_of(remaining@, capacity@, fills@, constrained@, unmet@, by_market@);
        let ghost need_k = need;
        let ghost budget_k = budget;
        let outcome = fill_one(
            order,
            supply,
            c,
            &mut need,
            &mut budget,
            remaining,
            capacity,
            fills,
            constrained,
            unmet,
            by_market,
        );
        proof {
            assert forall|i: int| 0 <= i < supply@.len() implies #[trigger] remaining@[i] <= rem0[i] by {
                assert(remaining@[i] <= before_rem[i]);
            }
        }
        match outcome {
            Ok(()) => {},
            Err(e) => {
                proof {
                    let sub = cs.subrange(k as int, cs.len() as int);
                    assert(fill_step(st_k, need_k as int, budget_k as int, order, supply@, sub[0]) is Err);
                    assert(fill_from(st_k, need_k as int, budget_k as int, order, supply@, sub)
                        == fill_step(st_k, need_k as int, budget_k as int, order, supply@, sub[0]));
                }
                return Err(e);
            },
        }
        k = k + 1;
    }
    proof {
        assert(cs.subrange(k as int, cs.len() as int) =~= Seq::<(int, int, Option<u32>)>::empty());
    }
    Ok(need)
}

/// Whether what is left of each offer is at most its quantity.
pub open spec fn remaining_bounded(supply: Seq<MarketOffer>, remaining: Seq<u64>) -> bool {
    &&& remaining.len() == supply.len()
    &&& forall|i: int| 0 <= i < supply.len() ==> #[trigger] remaining[i] <= supply[i].quantity@
}

/// The result of clearing (see `clear_market_with_delivery`): an error with the route
/// capacity at that moment, or the final state.
pub open spec fn clearing_result(
    orders: Seq<MarketOrder>,
    offers: Seq<MarketOffer>,
    capacity: Map<u32, u64>,
    table: DeliveryTable,
) -> Result<ClearState, (WorldError, Map<u32, u64>)> {
    let supply = sorted_offers(offers);
    if !prices_positive(supply) {
        Err((WorldError::InvalidPrice, capacity))
    } else {
        orders_from(initial_state(supply, capacity), sorted_orders(orders), supply, table)
    }
}

/// The quantities delivered by each fill.
pub open spec fn fill_quantities(fills: Seq<MarketFill>) -> Seq<int> {
    Seq::new(fills.len(), |i: int| fills[i].quantity@ as int)
}

/// The quantity each offer puts on the market.
pub open spec fn offered_quantities(supply: Seq<MarketOffer>) -> Seq<int> {
    supply.map_values(|o: MarketOffer| o.quantity@ as int)
}

/// What has been delivered and what is left of each offer account for every unit offered.
pub open spec fn goods_accounted(supply: Seq<MarketOffer>, st: ClearState) -> bool {
    &&& st.remaining.len() == supply.len()
    &&& forall|i: int| 0 <= i < supply.len() ==> 0 <= #[trigger] st.remaining[i] <= supply[i].quantity@
    &&& crate::apportion::seq_sum(fill_quantities(st.fills)) + crate::apportion::seq_sum(st.remaining)
        == crate::apportion::seq_sum(offered_quantities(supply))
}

/// Replacing one element changes a sum by the difference.
pub proof fn lemma_sum_update(s: Seq<int>, i: int, v: int)
    requires
        0 <= i < s.len(),
    ensures
        crate::apportion::seq_sum(s.update(i, v)) == crate::apportion::seq_sum(s) - s[i] + v,
    decreases s.len(),
{
    if i < s.len() - 1 {
        lemma_sum_update(s.drop_last(), i, v);
        assert(s.update(i, v).drop_last() =~= s.drop_last().update(i, v));
    } else {
        assert(s.update(i, v).drop_last() =~= s.drop_last());
    }
}

/// Local candidates lie among the offers.
proof fn lemma_locals_in_range(supply: Seq<MarketOffer>, remaining: Seq<int>, order: MarketOrder, k: int)
    requires
        0 <= k <= supply.len(),
    ensures
        forall|j: int|
            0 <= j < local_upto(supply, remaining, order, k).len() ==> 0 <= #[trigger] local_upto(
                supply,
                remaining,
                order,
                k,
            )[j] < k,
    decreases k,
{
    if k > 0 {
        lemma_locals_in_range(supply, remaining, order, k - 1);
        let prev = local_upto(supply, remaining, order, k - 1);
        let now = local_upto(supply, remaining, order, k);
        assert forall|j: int| 0 <= j < now.len() implies 0 <= #[trigger] now[j] < k by {
            if j < prev.len() {
                assert(now[j] == prev[j]);
            }
        }
    }
}

/// Import candidates lie among the offers.
proof fn lemma_imports_in_range(
    supply: Seq<MarketOffer>,
    remaining: Seq<int>,
    order: MarketOrder,
    table: DeliveryTable,
    k: int,
)
    requires
        0 <= k <= supply.len(),
        imports_upto(supply, remaining, order, table, k) is Ok,
    ensures
        forall|j: int|
            0 <= j < imports_upto(supply, remaining, order, table, k)->Ok_0.len() ==> 0 <= (
            #[trigger] imports_upto(supply, remaining, order, table, k)->Ok_0[j]).1 < k,
    decreases k,
{
    if k > 0 {
        lemma_imports_in_range(supply, remaining, order, table, k - 1);
    }
}

/// Every candidate names an offer.
proof fn lemma_candidates_in_range(supply: Seq<MarketOffer>, remaining: Seq<int>, order: MarketOrder, table: DeliveryTable)
    requires
        candidates(supply, remaining, order, table) is Ok,
    ensures
        forall|j: int|
            0 <= j < candidates(supply, remaining, order, table)->Ok_0.len() ==> 0 <= (
            #[trigger] candidates(supply, remaining, order, table)->Ok_0[j]).0 < supply.len(),
{
    let n = supply.len() as int;
    lemma_locals_in_range(supply, remaining, order, n);
    lemma_imports_in_range(supply, remaining, order, table, n);
    let locals = local_upto(supply, remaining, order, n);
    let imports = imports_upto(supply, remaining, order, table, n)->Ok_0;
    let before = keyed_before(imports.map_values(|e: (int, int, int, u32)| import_key(supply, e)));
    lemma_keyed_before_strict(imports.map_values(|e: (int, int, int, u32)| import_key(supply, e)));
    lemma_rank_bijection(before, imports.len() as int);
    let cs = candidates(supply, remaining, order, table)->Ok_0;
    assert forall|j: int| 0 <= j < cs.len() implies 0 <= (#[trigger] cs[j]).0 < supply.len() by {
        if j < locals.len() {
            assert(cs[j].0 == locals[j]);
        } else {
            let r = j - locals.len();
            let i = index_at(before, imports.len() as int, r);
            assert(ordered_by(imports, before)[r] == imports[i]);
        }
    }
}

/// One fill attempt keeps every unit offered accounted for.
proof fn lemma_fill_step_accounts(
    st: ClearState,
    need: int,
    budget: int,
    order: MarketOrder,
    supply: Seq<MarketOffer>,
    c: (int, int, Option<u32>),
)
    requires
        goods_accounted(supply, st),
        0 <= c.0 < supply.len(),
        need >= 0,
        fill_step(st, need, budget, order, supply, c) is Ok,
    ensures
        goods_accounted(supply, fill_step(st, need, budget, order, supply, c)->Ok_0.0),
        fill_step(st, need, budget, order, supply, c)->Ok_0.1 >= 0,
{
    if need != 0 {
        let offer = supply[c.0];
        let price = offer.unit_price@ + c.1;
        let raw = tdiv(budget * 1000, price);
        let affordable = if raw < 0 {
            0
        } else {
            raw
        };
        let route_limit = match c.2 {
            Some(r) => if st.capacity.contains_key(r) {
                st.capacity[r] as int
            } else {
                u64::MAX as int
            },
            None => u64::MAX as int,
        };
        let unconstrained = min_int(min_int(need, st.remaining[c.0]), affordable);
        let q = min_int(unconstrained, route_limit);
        if q != 0 && fits_i64(price) {
            let st2 = fill_step(st, need, budget, order, supply, c)->Ok_0.0;
            assert(0 <= q <= st.remaining[c.0]);
            lemma_sum_update(st.remaining, c.0, st.remaining[c.0] - q);
            assert(fill_quantities(st2.fills).drop_last() =~= fill_quantities(st.fills));
            assert(st2.fills.last().quantity@ == q);
        }
    }
}

/// Filling an order from its candidates keeps every unit offered accounted for.
proof fn lemma_fill_from_accounts(
    st: ClearState,
    need: int,
    budget: int,
    order: MarketOrder,
    supply: Seq<MarketOffer>,
    cands: Seq<(int, int, Option<u32>)>,
)
    requires
        goods_accounted(supply, st),
        forall|j: int| 0 <= j < cands.len() ==> 0 <= (#[trigger] cands[j]).0 < supply.len(),
        need >= 0,
        fill_from(st, need, budget, order, supply, cands) is Ok,
    ensures
        goods_accounted(supply, fill_from(st, need, budget, order, supply, cands)->Ok_0.0),
    decreases cands.len(),
{
    if cands.len() > 0 {
        lemma_fill_step_accounts(st, need, budget, order, supply, cands[0]);
        let (st2, need2, budget2) = fill_step(st, need, budget, order, supply, cands[0])->Ok_0;
        assert forall|j: int| 0 <= j < cands.drop_first().len() implies 0 <= (
        #[trigger] cands.drop_first()[j]).0 < supply.len() by {
            assert(cands.drop_first()[j] == cands[j + 1]);
        }
        lemma_fill_from_accounts(st2, need2, budget2, order, supply, cands.drop_first());
    }
}

/// Serving orders keeps every unit offered accounted for.
proof fn lemma_orders_from_account(
    st: ClearState,
    orders: Seq<MarketOrder>,
    supply: Seq<MarketOffer>,
    table: DeliveryTable,
)
    requires
        goods_accounted(supply, st),
        orders_from(st, orders, supply, table) is Ok,
    ensures
        goods_accounted(supply, orders_from(st, orders, supply, table)->Ok_0),
    decreases orders.len(),
{
    if orders.len() > 0 {
        let order = orders[0];
        lemma_candidates_in_range(supply, st.remaining, order, table);
        let cs = candidates(supply, st.remaining, order, table)->Ok_0;
        lemma_fill_from_accounts(st, order.quantity@ as int, order.max_spend@ as int, order, supply, cs);
        let st2 = order_step(st, order, supply, table)->Ok_0;
        lemma_orders_from_account(st2, orders.drop_first(), supply, table);
    }
}

/// Clearing a market conserves goods: every unit offered is either delivered by a fill or
/// left unsold, no offer sells more than it offered, and each offer's outcome reports
/// sold and unsold quantities that add up to what it offered.
pub proof fn lemma_clearing_conserves_goods(
    orders: Seq<MarketOrder>,
    offers: Seq<MarketOffer>,
    capacity: Map<u32, u64>,
    table: DeliveryTable,
)
    requires
        clearing_result(orders, offers, capacity, table) is Ok,
    ensures
        ({
            let st = clearing_result(orders, offers, capacity, table)->Ok_0;
            let supply = sorted_offers(offers);
            &&& crate::apportion::seq_sum(fill_quantities(st.fills)) + crate::apportion::seq_sum(st.remaining)
                == crate::apportion::seq_sum(offered_quantities(supply))
            &&& forall|i: int|
                0 <= i < supply.len() ==> (#[trigger] offer_outcomes(supply, st)[i]).sold@
                    + offer_outcomes(supply, st)[i].unsold@ == supply[i].quantity@
        }),
{
    let supply = sorted_offers(offers);
    let st0 = initial_state(supply, capacity);
    assert(st0.remaining =~= offered_quantities(supply));
    assert(fill_quantities(st0.fills) =~= Seq::<int>::empty());
    lemma_orders_from_account(st0, sorted_orders(orders), supply, table);
}

/// What one delivery of `order` looks like: to the order's buyer, good and tier, a
/// positive quantity, a payment that splits exactly into the goods price and the freight,
/// and no freight on a local delivery (one without a route).
pub open spec fn fill_serves(f: MarketFill, order: MarketOrder) -> bool {
    &&& f.buyer == order.buyer
    &&& f.good == order.good
    &&& f.tier == order.tier
    &&& f.quantity@ > 0
    &&& f.spend@ == f.goods_spend@ + f.freight_spend@
    &&& f.route is None ==> f.freight_spend@ == 0
}

/// The candidates of an order are valid offers, and a local one (without a route)
/// carries no tariff.
pub open spec fn candidates_well_formed(supply: Seq<MarketOffer>, cands: Seq<(int, int, Option<u32>)>) -> bool {
    forall|j: int|
        0 <= j < cands.len() ==> 0 <= (#[trigger] cands[j]).0 < supply.len() && (cands[j].2 is None
            ==> cands[j].1 == 0)
}

/// The fills `st` had stay first in `st2`, and every later one serves `order`.
pub open spec fn fills_extend_for(st: ClearState, st2: ClearState, order: MarketOrder) -> bool {
    &&& st.fills.len() <= st2.fills.len()
    &&& forall|j: int| 0 <= j < st.fills.len() ==> #[trigger] st2.fills[j] == st.fills[j]
    &&& forall|j: int| st.fills.len() <= j < st2.fills.len() ==> fill_serves(#[trigger] st2.fills[j], order)
}

proof fn lemma_fill_step_serves(
    st: ClearState,
    need: int,
    budget: int,
    order: MarketOrder,
    supply: Seq<MarketOffer>,
    c: (int, int, Option<u32>),
)
    requires
        goods_accounted(supply, st),
        0 <= c.0 < supply.len(),
        c.2 is None ==> c.1 == 0,
        need >= 0,
        fill_step(st, need, budget, order, supply, c) is Ok,
    ensures
        goods_accounted(supply, fill_step(st, need, budget, order, supply, c)->Ok_0.0),
        ({
            let (st2, need2, _) = fill_step(st, need, budget, order, supply, c)->Ok_0;
            &&& fills_extend_for(st, st2, order)
            &&& 0 <= need2 <= need
            &&& crate::apportion::seq_sum(fill_quantities(st2.fills)) == crate::apportion::seq_sum(
                fill_quantities(st.fills),
            ) + (need - need2)
        }),
{
    lemma_fill_step_accounts(st, need, budget, order, supply, c);
    let (st2, need2, b2) = fill_step(st, need, budget, order, supply, c)->Ok_0;
    if need != 0 {
        let offer = supply[c.0];
        let price = offer.unit_price@ + c.1;
        let raw = tdiv(budget * 1000, price);
        let affordable = if raw < 0 {
            0
        } else {
            raw
        };
        let route_limit = match c.2 {
            Some(r) => if st.capacity.contains_key(r) {
                st.capacity[r] as int
            } else {
                u64::MAX as int
            },
            None => u64::MAX as int,
        };
        let unconstrained = min_int(min_int(need, st.remaining[c.0]), affordable);
        let q = min_int(unconstrained, route_limit);
        assert(0 <= q <= need);
        if q != 0 {
            assert(fill_quantities(st2.fills).drop_last() =~= fill_quantities(st.fills));
            let f = st2.fills.last();
            let spend = tdiv(price * q, 1000);
            let goods = tdiv(offer.unit_price@ * q, 1000);
            if c.2 is None {
                assert(price == offer.unit_price@);
                assert(spend == goods);
            }
            assert(f.quantity@ == q);
            assert(f.spend@ == spend);
            assert(f.goods_spend@ == goods);
            assert(f.freight_spend@ == spend - goods);
            assert(fill_serves(f, order));
            assert forall|j: int| 0 <= j < st.fills.len() implies #[trigger] st2.fills[j] == st.fills[j] by {
            }
        } else {
            assert(fill_quantities(st2.fills) =~= fill_quantities(st.fills));
        }
    } else {
        assert(fill_quantities(st2.fills) =~= fill_quantities(st.fills));
    }
}

proof fn lemma_fill_from_serves(
    st: ClearState,
    need: int,
    budget: int,
    order: MarketOrder,
    supply: Seq<MarketOffer>,
    cands: Seq<(int, int, Option<u32>)>,
)
    requires
        goods_accounted(supply, st),
        candidates_well_formed(supply, cands),
        need >= 0,
        fill_from(st, need, budget, order, supply, cands) is Ok,
    ensures
        ({
            let (st2, need2, _) = fill_from(st, need, budget, order, supply, cands)->Ok_0;
            &&& fills_extend_for(st, st2, order)
            &&& 0 <= need2 <= need
            &&& crate::apportion::seq_sum(fill_quantities(st2.fills)) == crate::apportion::seq_sum(
                fill_quantities(st.fills),
            ) + (need - need2)
        }),
    decreases cands.len(),
{
    if cands.len() > 0 {
        lemma_fill_step_serves(st, need, budget, order, supply, cands[0]);
        let (st1, need1, budget1) = fill_step(st, need, budget, order, supply, cands[0])->Ok_0;
        assert forall|j: int| 0 <= j < cands.drop_first().len() implies 0 <= (
        #[trigger] cands.drop_first()[j]).0 < supply.len() && (cands.drop_first()[j].2 is None
            ==> cands.drop_first()[j].1 == 0) by {
            assert(cands.drop_first()[j] == cands[j + 1]);
        }
        lemma_fill_from_serves(st1, need1, budget1, order, supply, cands.drop_first());
        let st2 = fill_from(st, need, budget, order, supply, cands)->Ok_0.0;
        assert forall|j: int| 0 <= j < st.fills.len() implies #[trigger] st2.fills[j] == st.fills[j] by {
            assert(st1.fills[j] == st.fills[j]);
        }
        assert forall|j: int| st.fills.len() <= j < st2.fills.len() implies fill_serves(
            #[trigger] st2.fills[j],
            order,
        ) by {
            if j < st1.fills.len() {
                assert(st2.fills[j] == st1.fills[j]);
            }
        }
    }
}

proof fn lemma_candidates_well_formed(
    supply: Seq<MarketOffer>,
    remaining: Seq<int>,
    order: MarketOrder,
    table: DeliveryTable,
)
    requires
        remaining.len() == supply.len(),
        candidates(supply, remaining, order, table) is Ok,
    ensures
        candidates_well_formed(supply, candidates(supply, remaining, order, table)->Ok_0),
{
    lemma_candidates_in_range(supply, remaining, order, table);
    let cs = candidates(supply, remaining, order, table)->Ok_0;
    let locals = local_upto(supply, remaining, order, supply.len() as int);
    assert forall|j: int| 0 <= j < cs.len() implies 0 <= (#[trigger] cs[j]).0 < supply.len() && (
    cs[j].2 is None ==> cs[j].1 == 0) by {
        if j >= locals.len() {
            assert(cs[j].2 is Some);
        }
    }
}

/// Serving one order accounts for all of it: the fills made for it come after those
/// made before, each goes to its buyer, good and tier with a positive quantity and a
/// payment that is exactly goods price plus freight (no freight on a local delivery),
/// and what they deliver plus what stays unmet is the quantity ordered.
pub proof fn lemma_order_fill_accounts(
    st: ClearState,
    order: MarketOrder,
    supply: Seq<MarketOffer>,
    table: DeliveryTable,
)
    requires
        goods_accounted(supply, st),
        order_fill(st, order, supply, table) is Ok,
    ensures
        ({
            let (st2, unmet) = order_fill(st, order, supply, table)->Ok_0;
            &&& fills_extend_for(st, st2, order)
            &&& 0 <= unmet <= order.quantity@
            &&& crate::apportion::seq_sum(fill_quantities(st2.fills)) - crate::apportion::seq_sum(
                fill_quantities(st.fills),
            ) + unmet == order.quantity@
        }),
{
    lemma_candidates_well_formed(supply, st.remaining, order, table);
    let cs = candidates(supply, st.remaining, order, table)->Ok_0;
    lemma_fill_from_serves(st, order.quantity@ as int, order.max_spend@ as int, order, supply, cs);
}

/// The delivered-price condition carries over to the sorted orders and offers.
proof fn lemma_nonzero_sorted(orders: Seq<MarketOrder>, offers: Seq<MarketOffer>, table: DeliveryTable)
    requires
        delivered_prices_nonzero(orders, offers, table),
    ensures
        forall|r: int|
            0 <= r < orders.len() ==> import_prices_nonzero(
                #[trigger] sorted_orders(orders)[r],
                sorted_offers(offers),
                table,
            ),
{
    let ob = keyed_before(orders.map_values(|o: MarketOrder| order_key(o)));
    let fb = keyed_before(offers.map_values(|o: MarketOffer| offer_key(o)));
    lemma_keyed_before_strict(orders.map_values(|o: MarketOrder| order_key(o)));
    lemma_keyed_before_strict(offers.map_values(|o: MarketOffer| offer_key(o)));
    lemma_rank_bijection(ob, orders.len() as int);
    lemma_rank_bijection(fb, offers.len() as int);
    assert forall|r: int| 0 <= r < orders.len() implies import_prices_nonzero(
        #[trigger] sorted_orders(orders)[r],
        sorted_offers(offers),
        table,
    ) by {
        let j = index_at(ob, orders.len() as int, r);
        assert(sorted_orders(orders)[r] == orders[j]);
        assert forall|i: int|
            0 <= i < sorted_offers(offers).len() && orders[j].tier == NeedTier::Survival
                && (#[trigger] sorted_offers(offers)[i]).good == orders[j].good
                && sorted_offers(offers)[i].region != orders[j].region
                && sorted_offers(offers)[i].unit_price@ > 0 && table.contains_key(
                (sorted_offers(offers)[i].region@, orders[j].region@),
            ) implies sorted_offers(offers)[i].unit_price@ + table[(
                sorted_offers(offers)[i].region@,
                orders[j].region@,
            )].1@ != 0 by {
            let k = index_at(fb, offers.len() as int, i);
            assert(sorted_offers(offers)[i] == offers[k]);
            assert(orders[j] == orders[j]);
            assert(offers[k] == offers[k]);
        }
    }
}

/// Clears goods markets deterministically. Orders are served by region, good, tier and
/// buyer; each buys first from local offers in price order, then, for survival needs,
/// from imports listed in the delivery table (origin, destination) by delivered price.
/// Imports also consume the route capacity left in `route_capacity` (routes not listed
/// there are unconstrained). Offers with a non-positive price are refused
/// (`InvalidPrice`, nothing changed); an overflow stops the clearing with the route
/// capacity as consumed so far. See `clearing_result`.
pub fn clear_market_with_delivery(
    orders: &[MarketOrder],
    offers: &[MarketOffer],
    route_capacity: &mut BTreeMap<u32, u64>,
    delivery: &BTreeMap<(u32, u32), (RouteId, Money)>,
) -> (r: Result<MarketClearing, WorldError>)
    requires
        delivered_prices_nonzero(orders@, offers@, delivery@),
    ensures
        match clearing_result(orders@, offers@, old(route_capacity)@, delivery@) {
            Err((e, cap)) => r == Err::<MarketClearing, WorldError>(e) && final(route_capacity)@ == cap,
            Ok(st) => r matches Ok(c) && c.fills@ == st.fills && c.unmet@.map_values(
                |q: QuantityMilli| q@,
            ) == st.unmet && c.offer_outcomes@ == offer_outcomes(sorted_offers(offers@), st)
                && c.constrained_routes@ == st.constrained && final(route_capacity)@ == st.capacity,
        },
{
    let ov = copy_slice(orders);
    let sorted = sort_orders(&ov);
    let fv = copy_slice(offers);
    let supply = sort_offers(&fv);
    let mut i: usize = 0;
    while i < supply.len()
        invariant
            i <= supply@.len(),
            supply@ == sorted_offers(offers@),
            forall|k: int| 0 <= k < i ==> (#[trigger] supply@[k]).unit_price@ > 0,
        decreases supply@.len() - i,
    {
        if supply[i].unit_price.minor_units() <= 0 {
            assert(!prices_positive(supply@));
            assert(clearing_result(orders@, offers@, route_capacity@, delivery@) == Err::<
                ClearState,
                (WorldError, Map<u32, u64>),
            >((WorldError::InvalidPrice, route_capacity@)));
            return Err(WorldError::InvalidPrice);
        }
        i = i + 1;
    }
    proof {
        lemma_nonzero_sorted(orders@, offers@, delivery@);
    }
    let mut remaining: Vec<u64> = Vec::new();
    let mut i: usize = 0;
    while i < supply.len()
        invariant
            i <= supply@.len(),
            remaining@.len() == i,
            forall|k: int| 0 <= k < i ==> remaining@[k] == (#[trigger] supply@[k]).quantity@,
        decreases supply@.len() - i,
    {
        remaining.push(supply[i].quantity.get());
        i = i + 1;
    }
    let mut fills: Vec<MarketFill> = Vec::new();
    let mut unmet: BTreeMap<(u32, u32, u32), QuantityMilli> = BTreeMap::new();
    let mut by_market: BTreeMap<(u32, u32), u64> = BTreeMap::new();
    let mut constrained: BTreeSet<u32> = BTreeSet::new();
    let ghost init = initial_state(supply@, route_capacity@);
    proof {
        assert(rem_seq(remaining@) =~= supply@.map_values(|o: MarketOffer| o.quantity@ as int));
        assert(unmet@.map_values(|q: QuantityMilli| q@) =~= Map::<(u32, u32, u32), u64>::empty());
        assert(fills@ =~= Seq::<MarketFill>::empty());
        assert(init == state_of(
            remaining@,
            route_capacity@,
            fills@,
            constrained@,
            unmet@.map_values(|q: QuantityMilli| q@),
            by_market@,
        ));
        assert(sorted@.subrange(0, sorted@.len() as int) =~= sorted@);
        assert(clearing_result(orders@, offers@, route_capacity@, delivery@) == orders_from(
            init,
            sorted@,
            supply@,
            delivery@,
        ));
    }
    let mut k: usize = 0;
    while k < sorted.len()
        invariant
            k <= sorted@.len(),
            clearing_result(orders@, offers@, old(route_capacity)@, delivery@) == orders_from(
                init,
                sorted@,
                supply@,
                delivery@,
            ),
            sorted@ == sorted_orders(orders@),
            sorted@.len() == orders@.len(),
            supply@ == sorted_offers(offers@),
            prices_positive(supply@),
            remaining_bounded(supply@, remaining@),
            forall|r: int|
                0 <= r < orders@.len() ==> import_prices_nonzero(
                    #[trigger] sorted_orders(orders@)[r],
                    sorted_offers(offers@),
                    delivery@,
                ),
            orders_from(init, sorted@, supply@, delivery@) == orders_from(
                state_of(
                    remaining@,
                    route_capacity@,
                    fills@,
                    constrained@,
                    unmet@.map_values(|q: QuantityMilli| q@),
                    by_market@,
                ),
                sorted@.subrange(k as int, sorted@.len() as int),
                supply@,
                delivery@,
            ),
        decreases sorted@.len() - k,
    {
        let order = sorted[k];
        let ghost st = state_of(
            remaining@,
            route_capacity@,
            fills@,
            constrained@,
            unmet@.map_values(|q: QuantityMilli| q@),
            by_market@,
        );
        proof {
            let sub = sorted@.subrange(k as int, sorted@.len() as int);
            assert(sub[0] == order);
            assert(sub.drop_first() =~= sorted@.subrange(k as int + 1, sorted@.len() as int));
            assert(import_prices_nonzero(sorted_orders(orders@)[k as int], sorted_offers(offers@), delivery@));
        }
        let ghost rem_before = remaining@;
        let ghost sub = sorted@.subrange(k as int, sorted@.len() as int);
        let need = match fill_market_order(
            order,
            &supply,
            &mut remaining,
            route_capacity,
            delivery,
            &mut fills,
            &mut constrained,
            Ghost(unmet@.map_values(|q: QuantityMilli| q@)),
            Ghost(by_market@),
        ) {
            Ok(n) => n,
            Err(e) => {
                proof {
                    assert(order_fill(st, order, supply@, delivery@) is Err);
                    assert(orders_from(st, sub, supply@, delivery@) == order_step(
                        st,
                        sub[0],
                        supply@,
                        delivery@,
                    ));
                }
                return Err(e);
            },
        };
        proof {
            assert forall|i: int| 0 <= i < supply@.len() implies #[trigger] remaining@[i]
                <= supply@[i].quantity@ by {
                assert(remaining@[i] <= rem_before[i]);
            }
        }
        if need > 0 {
            let market = (order.region.get(), order.good.get());
            let before: u64 = match by_market.get(&market) {
                Some(v) => *v,
                None => 0,
            };
            let total = match before.checked_add(need) {
                Some(v) => v,
                None => {
                    proof {
                        assert(orders_from(st, sub, supply@, delivery@) == order_step(
                            st,
                            sub[0],
                            supply@,
                            delivery@,
                        ));
                    }
                    return Err(WorldError::ArithmeticOverflow("market unmet demand"));
                },
            };
            let key = (order.buyer.get(), order.good.get(), tier_index(order.tier) as u32);
            let ghost unmet_before = unmet@;
            unmet.insert(key, QuantityMilli::new(need));
            by_market.insert(market, total);
            proof {
                assert(unmet@.map_values(|q: QuantityMilli| q@) =~= unmet_before.map_values(
                    |q: QuantityMilli| q@,
                ).insert(key, need));
            }
        }
        k = k + 1;
    }
    proof {
        assert(sorted@.subrange(k as int, sorted@.len() as int) =~= Seq::<MarketOrder>::empty());
    }
    let ghost fin = state_of(
        remaining@,
        route_capacity@,
        fills@,
        constrained@,
        unmet@.map_values(|q: QuantityMilli| q@),
        by_market@,
    );
    let mut outcomes: Vec<MarketOfferOutcome> = Vec::new();
    let mut i: usize = 0;
    while i < supply.len()
        invariant
            i <= supply@.len(),
            remaining_bounded(supply@, remaining@),
            fin.remaining == rem_seq(remaining@),
            fin.by_market == by_market@,
            outcomes@.len() == i,
            forall|k: int| 0 <= k < i ==> #[trigger] outcomes@[k] == offer_outcomes(supply@, fin)[k],
        decreases supply@.len() - i,
    {
        let o = supply[i];
        let left = remaining[i];
        let unmet_here: u64 = match by_market.get(&(o.region.get(), o.good.get())) {
            Some(v) => *v,
            None => 0,
        };
        outcomes.push(
            MarketOfferOutcome {
                seller: o.seller,
                region: o.region,
                good: o.good,
                unit_price: o.unit_price,
                offered: o.quantity,
                sold: QuantityMilli::new(o.quantity.get() - left),
                unsold: QuantityMilli::new(left),
                unmet_market_demand: QuantityMilli::new(unmet_here),
            },
        );
        i = i + 1;
    }
    proof {
        assert(outcomes@ =~= offer_outcomes(supply@, fin));
    }
    Ok(MarketClearing { fills, unmet, offer_outcomes: outcomes, constrained_routes: constrained })
}

/// Clears a strictly local market without imports (see `clear_market_with_delivery`
/// with no route capacity and an empty delivery table).
pub fn clear_local_market(orders: &[MarketOrder], offers: &[MarketOffer]) -> (r: Result<
    MarketClearing,
    WorldError,
>)
    ensures
        match clearing_result(orders@, offers@, Map::empty(), Map::empty()) {
            Err((e, _)) => r == Err::<MarketClearing, WorldError>(e),
            Ok(st) => r matches Ok(c) && c.fills@ == st.fills && c.unmet@.map_values(
                |q: QuantityMilli| q@,
            ) == st.unmet && c.offer_outcomes@ == offer_outcomes(sorted_offers(offers@), st)
                && c.constrained_routes@ == st.constrained,
        },
{
    let mut capacity: BTreeMap<u32, u64> = BTreeMap::new();
    let table: BTreeMap<(u32, u32), (RouteId, Money)> = BTreeMap::new();
    proof {
        assert(capacity@ =~= Map::<u32, u64>::empty());
        assert(table@ =~= Map::<(u32, u32), (RouteId, Money)>::empty());
    }
    clear_market_with_delivery(orders, offers, &mut capacity, &table)
}

} // verus!
