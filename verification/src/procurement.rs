use vstd::prelude::*;
use std::collections::{BTreeMap, BTreeSet};

use crate::ids::{FirmId, GoodId, RegionId, RouteId};
use crate::logistics::LogisticsRoute;
use crate::market::{
    cand_seq, fits_i64, import_key, import_seq, key_seq, keyed_before, lemma_keyed_before_strict, min_int, ranks_of,
    DeliveryTable, MarketOffer,
};
use crate::production::{held, Firm};
use crate::pricing::tdiv;
use crate::ranking::{index_at, lemma_rank_bijection, ordered_by, place_by_rank};
use crate::value::{Money, QuantityMilli};
use crate::ordered::{key_order, keys_in_order, pair_key_order, pair_keys_in_order};
use crate::world::{World, WorldError, WorldView};

verus! {

/// A firm's order for an intermediate input.
#[derive(Clone, Copy, Debug, PartialEq, Eq, Structural)]
pub struct FirmProcurementOrder {
    pub buyer: FirmId,
    pub region: RegionId,
    pub good: GoodId,
    pub quantity: QuantityMilli,
}

/// One delivery of an input from a supplier to a buying firm.
#[derive(Clone, Copy, Debug, PartialEq, Eq, Structural)]
pub struct FirmProcurementFill {
    pub buyer: FirmId,
    pub seller: FirmId,
    pub good: GoodId,
    pub quantity: QuantityMilli,
    /// Total delivered payment debited from the buyer.
    pub spend: Money,
    /// Goods-price component credited to the supplier.
    pub goods_spend: Money,
    /// Route-tariff component credited to the carrier.
    pub freight_spend: Money,
    pub route: Option<RouteId>,
}

/// What procurement can change of a firm: its cash and its inventory by good.
pub struct Ledger {
    pub cash: int,
    pub stock: Map<u32, u64>,
}

/// A firm's cash and inventory.
pub open spec fn ledger_of(f: Firm) -> Ledger {
    Ledger { cash: f.spec_cash() as int, stock: f.spec_inventories() }
}

/// The state of a procurement settlement: the firm ledgers, the offer book as it is
/// drawn down, the route capacity, and what has been recorded so far.
pub struct ProcState {
    pub ledgers: Map<u32, Ledger>,
    pub offers: Seq<MarketOffer>,
    pub capacity: Map<u32, u64>,
    pub fills: Seq<FirmProcurementFill>,
    pub unmet: Map<(u32, u32), QuantityMilli>,
    pub capacity_limited: Set<(u32, u32)>,
    pub constrained: Set<u32>,
    pub trade_prices: Map<(u32, u32), Money>,
    pub purchases: Map<(u32, u32), (u64, i64)>,
}

/// Whether offer `i` can serve `order` at all: the right good, another seller, stock left.
pub open spec fn proc_offer_usable(offers: Seq<MarketOffer>, order: FirmProcurementOrder, i: int) -> bool {
    &&& offers[i].good == order.good
    &&& offers[i].seller != order.buyer
    &&& offers[i].quantity@ != 0
}

/// The usable local offers among the first `k`, in book order.
pub open spec fn proc_locals(offers: Seq<MarketOffer>, order: FirmProcurementOrder, k: int) -> Seq<int>
    decreases k,
{
    if k <= 0 {
        seq![]
    } else {
        let prev = proc_locals(offers, order, k - 1);
        if proc_offer_usable(offers, order, k - 1) && offers[k - 1].region == order.region {
            prev.push(k - 1)
        } else {
            prev
        }
    }
}

/// The usable imports among the first `k` offers over a listed direct route, as
/// (delivered price, offer index, tariff, route) in book order; an overflow when a
/// delivered price leaves `i64`.
pub open spec fn proc_imports(
    offers: Seq<MarketOffer>,
    order: FirmProcurementOrder,
    table: DeliveryTable,
    k: int,
) -> Result<Seq<(int, int, int, u32)>, WorldError>
    decreases k,
{
    if k <= 0 {
        Ok(seq![])
    } else {
        match proc_imports(offers, order, table, k - 1) {
            Err(e) => Err(e),
            Ok(prev) => {
                let i = k - 1;
                if proc_offer_usable(offers, order, i) && offers[i].region != order.region
                    && table.contains_key((offers[i].region@, order.region@)) {
                    let (route, tariff) = table[(offers[i].region@, order.region@)];
                    let delivered = offers[i].unit_price@ + tariff@;
                    if !fits_i64(delivered) {
                        Err(WorldError::ArithmeticOverflow("firm procurement delivered price"))
                    } else {
                        Ok(prev.push((delivered, i, tariff@ as int, route@)))
                    }
                } else {
                    Ok(prev)
                }
            },
        }
    }
}

/// The offers an order may buy from, as (offer index, tariff, route): local offers in
/// book order, then imports by delivered price, origin region and seller (stable).
pub open spec fn proc_candidates(offers: Seq<MarketOffer>, order: FirmProcurementOrder, table: DeliveryTable) -> Result<
    Seq<(int, int, Option<u32>)>,
    WorldError,
> {
    let locals = proc_locals(offers, order, offers.len() as int);
    match proc_imports(offers, order, table, offers.len() as int) {
        Err(e) => Err(e),
        Ok(imports) => {
            let sorted = ordered_by(
                imports,
                keyed_before(imports.map_values(|e: (int, int, int, u32)| import_key(offers, e))),
            );
            Ok(
                locals.map_values(|i: int| (i, 0int, None::<u32>)) + sorted.map_values(
                    |e: (int, int, int, u32)| (e.1, e.2, Some(e.3)),
                ),
            )
        },
    }
}

/// An error together with the offer book and route capacity at that moment.
pub type ProcFailure = (WorldError, Seq<MarketOffer>, Map<u32, u64>);

/// The ledger after a cash change.
pub open spec fn with_cash(l: Ledger, cash: int) -> Ledger {
    Ledger { cash, ..l }
}

/// The ledger after taking `q` of a good out of stock (a good that runs out is dropped).
pub open spec fn stock_taken(l: Ledger, good: u32, q: int) -> Ledger {
    Ledger {
        stock: if held(l.stock, good) == q {
            l.stock.remove(good)
        } else {
            l.stock.insert(good, (held(l.stock, good) - q) as u64)
        },
        ..l
    }
}

/// The ledger after putting `q` of a good into stock.
pub open spec fn stock_added(l: Ledger, good: u32, q: int) -> Ledger {
    Ledger { stock: l.stock.insert(good, (held(l.stock, good) + q) as u64), ..l }
}

/// The firm ledgers after one fill of `q` units at `spend` (to the seller `goods`, to the
/// route's carrier `freight`): the buyer pays, the seller delivers from stock, the buyer
/// stocks the input, the seller and the carrier are paid. An unknown seller or carrier,
/// a seller short of stock, a route without a carrier or an overflow fails.
pub open spec fn fill_ledgers(
    ledgers: Map<u32, Ledger>,
    routes: Map<u32, LogisticsRoute>,
    buyer: u32,
    seller: FirmId,
    good: GoodId,
    q: int,
    spend: int,
    goods: int,
    freight: int,
    route: Option<u32>,
) -> Result<Map<u32, Ledger>, WorldError> {
    let l1 = ledgers.insert(buyer, with_cash(ledgers[buyer], ledgers[buyer].cash - spend));
    if !l1.contains_key(seller@) {
        Err(WorldError::UnknownFirm(seller))
    } else if held(l1[seller@].stock, good@) < q {
        Err(WorldError::InsufficientFirmInventory { firm: seller, good })
    } else {
        let l2 = l1.insert(seller@, stock_taken(l1[seller@], good@, q));
        if held(l2[buyer].stock, good@) + q > u64::MAX {
            Err(WorldError::ArithmeticOverflow("firm inventory credit"))
        } else {
            let l3 = l2.insert(buyer, stock_added(l2[buyer], good@, q));
            if !fits_i64(l3[seller@].cash + goods) {
                Err(WorldError::ArithmeticOverflow("firm cash"))
            } else {
                let l4 = l3.insert(seller@, with_cash(l3[seller@], l3[seller@].cash + goods));
                match route {
                    None => Ok(l4),
                    Some(r) => if !routes.contains_key(r) || routes[r].spec_carrier() is None {
                        Err(WorldError::InvalidLogistics("procurement import route requires a carrier"))
                    } else {
                        let carrier = routes[r].spec_carrier()->0;
                        if !l4.contains_key(carrier@) {
                            Err(WorldError::UnknownFirm(carrier))
                        } else if !fits_i64(l4[carrier@].cash + freight) {
                            Err(WorldError::ArithmeticOverflow("firm cash"))
                        } else {
                            Ok(l4.insert(carrier@, with_cash(l4[carrier@], l4[carrier@].cash + freight)))
                        }
                    },
                }
            }
        }
    }
}

/// The capacity left on a route for this month: unconstrained where none is listed.
pub open spec fn route_limit(capacity: Map<u32, u64>, route: Option<u32>) -> int {
    match route {
        Some(r) => if capacity.contains_key(r) {
            capacity[r] as int
        } else {
            u64::MAX as int
        },
        None => u64::MAX as int,
    }
}

/// One fill attempt of an order against one candidate, given what it still needs and
/// whether an import route ran dry: the quantity is limited by the need, the offer, what
/// the buyer's cash affords at the delivered price and the route's capacity.
pub open spec fn proc_step(
    routes: Map<u32, LogisticsRoute>,
    st: ProcState,
    need: int,
    exhausted: bool,
    order: FirmProcurementOrder,
    c: (int, int, Option<u32>),
) -> Result<(ProcState, int, bool), ProcFailure> {
    let offer = st.offers[c.0];
    let cash = st.ledgers[order.buyer@].cash;
    let price = offer.unit_price@ + c.1;
    if need == 0 || offer.quantity@ == 0 || cash <= 0 {
        Ok((st, need, exhausted))
    } else if !fits_i64(price) {
        Err((WorldError::ArithmeticOverflow("firm procurement delivered price"), st.offers, st.capacity))
    } else if price <= 0 {
        Ok((st, need, exhausted))
    } else {
        let affordable = min_int(cash * 1000 / price, u64::MAX as int);
        let limit = route_limit(st.capacity, c.2);
        let unconstrained = min_int(min_int(need, offer.quantity@ as int), affordable);
        let constrained = match c.2 {
            Some(r) => if limit < unconstrained {
                st.constrained.insert(r)
            } else {
                st.constrained
            },
            None => st.constrained,
        };
        let q = min_int(unconstrained, limit);
        let dry = exhausted || (c.2 is Some && limit == 0);
        if q == 0 {
            Ok((ProcState { constrained, ..st }, need, dry))
        } else {
            let spend = price * q / 1000;
            let goods = tdiv(offer.unit_price@ * q, 1000);
            if !fits_i64(spend) {
                Err((WorldError::ArithmeticOverflow("firm procurement spend"), st.offers, st.capacity))
            } else if !fits_i64(goods) {
                Err((WorldError::ArithmeticOverflow("firm procurement goods spend"), st.offers, st.capacity))
            } else if !fits_i64(spend - goods) {
                Err((WorldError::ArithmeticOverflow("firm procurement freight spend"), st.offers, st.capacity))
            } else {
                match fill_ledgers(
                    st.ledgers,
                    routes,
                    order.buyer@,
                    offer.seller,
                    order.good,
                    q,
                    spend,
                    goods,
                    spend - goods,
                    c.2,
                ) {
                    Err(e) => Err((e, st.offers, st.capacity)),
                    Ok(ledgers) => {
                        let left = offer.quantity@ - q;
                        let offers = st.offers.update(
                            c.0,
                            MarketOffer { quantity: QuantityMilli::spec_from(left as u64), ..offer },
                        );
                        let capacity = match c.2 {
                            Some(r) => if st.capacity.contains_key(r) {
                                st.capacity.insert(r, (st.capacity[r] - q) as u64)
                            } else {
                                st.capacity
                            },
                            None => st.capacity,
                        };
                        let dry2 = dry || match c.2 {
                            Some(r) => capacity.contains_key(r) && capacity[r] == 0 && left > 0,
                            None => false,
                        };
                        let key = (order.buyer@, order.good@);
                        let bought = if st.purchases.contains_key(key) {
                            st.purchases[key]
                        } else {
                            (0u64, 0i64)
                        };
                        if bought.0 + q > u64::MAX {
                            Err((WorldError::ArithmeticOverflow("firm procurement purchase quantity"), offers, capacity))
                        } else if !fits_i64(bought.1 + spend) {
                            Err((WorldError::ArithmeticOverflow("firm procurement purchase spend"), offers, capacity))
                        } else {
                            let fill = FirmProcurementFill {
                                buyer: order.buyer,
                                seller: offer.seller,
                                good: order.good,
                                quantity: QuantityMilli::spec_from(q as u64),
                                spend: Money::spec_from(spend as i64),
                                goods_spend: Money::spec_from(goods as i64),
                                freight_spend: Money::spec_from((spend - goods) as i64),
                                route: match c.2 {
                                    Some(r) => Some(RouteId(r)),
                                    None => None,
                                },
                            };
                            Ok(
                                (
                                    ProcState {
                                        ledgers,
                                        offers,
                                        capacity,
                                        fills: st.fills.push(fill),
                                        constrained,
                                        trade_prices: st.trade_prices.insert(
                                            (offer.seller@, order.good@),
                                            offer.unit_price,
                                        ),
                                        purchases: st.purchases.insert(
                                            key,
                                            ((bought.0 + q) as u64, (bought.1 + spend) as i64),
                                        ),
                                        ..st
                                    },
                                    need - q,
                                    dry2,
                                ),
                            )
                        }
                    },
                }
            }
        }
    }
}

/// Fills an order against its candidates in turn, stopping at the first failure.
pub open spec fn proc_fill(
    routes: Map<u32, LogisticsRoute>,
    st: ProcState,
    need: int,
    exhausted: bool,
    order: FirmProcurementOrder,
    cands: Seq<(int, int, Option<u32>)>,
) -> Result<(ProcState, int, bool), ProcFailure>
    decreases cands.len(),
{
    if cands.len() == 0 {
        Ok((st, need, exhausted))
    } else {
        match proc_step(routes, st, need, exhausted, order, cands[0]) {
            Err(e) => Err(e),
            Ok((st2, need2, ex2)) => proc_fill(routes, st2, need2, ex2, order, cands.drop_first()),
        }
    }
}

/// Settles one order: fills it, then records what stayed unmet, and whether a route
/// running dry is why.
pub open spec fn proc_order(
    routes: Map<u32, LogisticsRoute>,
    st: ProcState,
    order: FirmProcurementOrder,
    table: DeliveryTable,
) -> Result<ProcState, ProcFailure> {
    match proc_candidates(st.offers, order, table) {
        Err(e) => Err((e, st.offers, st.capacity)),
        Ok(cands) => match proc_fill(routes, st, order.quantity@ as int, false, order, cands) {
            Err(e) => Err(e),
            Ok((st2, need, dry)) => if need > 0 {
                let key = (order.buyer@, order.good@);
                Ok(
                    ProcState {
                        capacity_limited: if dry {
                            st2.capacity_limited.insert(key)
                        } else {
                            st2.capacity_limited
                        },
                        unmet: st2.unmet.insert(key, QuantityMilli::spec_from(need as u64)),
                        ..st2
                    },
                )
            } else {
                Ok(st2)
            },
        },
    }
}

/// Settles the orders in turn, stopping at the first failure.
pub open spec fn proc_orders(
    routes: Map<u32, LogisticsRoute>,
    st: ProcState,
    orders: Seq<FirmProcurementOrder>,
    table: DeliveryTable,
) -> Result<ProcState, ProcFailure>
    decreases orders.len(),
{
    if orders.len() == 0 {
        Ok(st)
    } else {
        match proc_order(routes, st, orders[0], table) {
            Err(e) => Err(e),
            Ok(st2) => proc_orders(routes, st2, orders.drop_first(), table),
        }
    }
}

/// The state a settlement starts from.
pub open spec fn proc_start(firms: Map<u32, Firm>, offers: Seq<MarketOffer>, capacity: Map<u32, u64>) -> ProcState {
    ProcState {
        ledgers: firms.map_values(|f: Firm| ledger_of(f)),
        offers,
        capacity,
        fills: seq![],
        unmet: Map::empty(),
        capacity_limited: Set::empty(),
        constrained: Set::empty(),
        trade_prices: Map::empty(),
        purchases: Map::empty(),
    }
}

/// A candidate an order may buy from: a usable offer of its good, local at no tariff, or
/// an import over the listed route at that route's tariff.
pub open spec fn proc_candidate_ok(
    offers: Seq<MarketOffer>,
    order: FirmProcurementOrder,
    table: DeliveryTable,
    c: (int, int, Option<u32>),
) -> bool {
    &&& 0 <= c.0 < offers.len()
    &&& match c.2 {
        None => c.1 == 0,
        Some(r) => {
            &&& table.contains_key((offers[c.0].region@, order.region@))
            &&& c.1 == table[(offers[c.0].region@, order.region@)].1@
            &&& r == table[(offers[c.0].region@, order.region@)].0@
        },
    }
}

/// An overflow among the first `k` offers persists for any longer prefix.
proof fn lemma_proc_imports_error_persists(
    offers: Seq<MarketOffer>,
    order: FirmProcurementOrder,
    table: DeliveryTable,
    k: int,
    n: int,
)
    requires
        0 <= k <= n,
        proc_imports(offers, order, table, k) is Err,
    ensures
        proc_imports(offers, order, table, n) == proc_imports(offers, order, table, k),
    decreases n - k,
{
    if n > k {
        lemma_proc_imports_error_persists(offers, order, table, k, n - 1);
    }
}

/// The offers an order may buy from (see `proc_candidates`).
fn procurement_candidates(
    order: FirmProcurementOrder,
    offers: &Vec<MarketOffer>,
    table: &BTreeMap<(u32, u32), (RouteId, Money)>,
) -> (r: Result<Vec<(usize, i64, Option<u32>)>, WorldError>)
    ensures
        match proc_candidates(offers@, order, table@) {
            Err(e) => r == Err::<Vec<(usize, i64, Option<u32>)>, WorldError>(e),
            Ok(cs) => r matches Ok(v) && cand_seq(v@) == cs && forall|k: int|
                0 <= k < v@.len() ==> proc_candidate_ok(offers@, order, table@, #[trigger] cand_seq(v@)[k]),
        },
{
    let n = offers.len();
    let mut locals: Vec<usize> = Vec::new();
    let mut k: usize = 0;
    while k < n
        invariant
            n == offers@.len(),
            k <= n,
            locals@.map_values(|x: usize| x as int) == proc_locals(offers@, order, k as int),
            forall|j: int| 0 <= j < locals@.len() ==> (#[trigger] locals@[j] as int) < n,
        decreases n - k,
    {
        let offer = offers[k];
        let ghost before = locals@;
        if offer.good == order.good && offer.seller != order.buyer && offer.quantity.get() != 0
            && offer.region == order.region {
            locals.push(k);
            assert(locals@.map_values(|x: usize| x as int) =~= before.map_values(|x: usize| x as int).push(k as int));
        }
        k = k + 1;
    }
    let mut imports: Vec<(i64, usize, i64, u32)> = Vec::new();
    assert(import_seq(imports@) =~= Seq::<(int, int, int, u32)>::empty());
    let mut k: usize = 0;
    while k < n
        invariant
            n == offers@.len(),
            k <= n,
            proc_imports(offers@, order, table@, k as int) == Ok::<Seq<(int, int, int, u32)>, WorldError>(
                import_seq(imports@),
            ),
            forall|j: int|
                0 <= j < imports@.len() ==> {
                    let e = #[trigger] imports@[j];
                    &&& (e.1 as int) < n
                    &&& proc_candidate_ok(offers@, order, table@, (e.1 as int, e.2 as int, Some(e.3)))
                },
        decreases n - k,
    {
        let offer = offers[k];
        let ghost before = imports@;
        if offer.good == order.good && offer.seller != order.buyer && offer.quantity.get() != 0
            && offer.region != order.region {
            match table.get(&(offer.region.get(), order.region.get())) {
                Some(entry) => {
                    let (route, tariff) = *entry;
                    let delivered = match offer.unit_price.minor_units().checked_add(tariff.minor_units()) {
                        Some(v) => v,
                        None => {
                            proof {
                                lemma_proc_imports_error_persists(offers@, order, table@, k as int + 1, n as int);
                            }
                            return Err(WorldError::ArithmeticOverflow("firm procurement delivered price"));
                        },
                    };
                    imports.push((delivered, k, tariff.minor_units(), route.get()));
                    assert(import_seq(imports@) =~= import_seq(before).push(
                        (delivered as int, k as int, tariff@ as int, route@),
                    ));
                },
                None => {},
            }
        }
        k = k + 1;
    }
    let mut keys: Vec<(i64, i64, i64, i64)> = Vec::new();
    let mut k: usize = 0;
    while k < imports.len()
        invariant
            k <= imports@.len(),
            keys@.len() == k,
            forall|j: int| 0 <= j < imports@.len() ==> (#[trigger] imports@[j]).1 < offers@.len(),
            forall|j: int|
                0 <= j < k ==> key_seq(keys@)[j] == import_key(offers@, #[trigger] import_seq(imports@)[j]),
        decreases imports@.len() - k,
    {
        let e = imports[k];
        let offer = offers[e.1];
        keys.push((e.0, offer.region.get() as i64, offer.seller.get() as i64, 0));
        k = k + 1;
    }
    let ranks = ranks_of(&keys);
    let ghost before_fn = keyed_before(key_seq(keys@));
    proof {
        assert(key_seq(keys@) =~= import_seq(imports@).map_values(
            |e: (int, int, int, u32)| import_key(offers@, e),
        ));
        lemma_keyed_before_strict(key_seq(keys@));
        lemma_rank_bijection(before_fn, imports@.len() as int);
    }
    let sorted = place_by_rank(&imports, &ranks, Ghost(before_fn));
    let mut out: Vec<(usize, i64, Option<u32>)> = Vec::new();
    let mut k: usize = 0;
    while k < locals.len()
        invariant
            k <= locals@.len(),
            out@.len() == k,
            forall|j: int| 0 <= j < k ==> #[trigger] cand_seq(out@)[j] == (locals@[j] as int, 0int, None::<u32>),
            forall|j: int| 0 <= j < locals@.len() ==> (#[trigger] locals@[j] as int) < offers@.len(),
        decreases locals@.len() - k,
    {
        let ghost prev = out@;
        out.push((locals[k], 0, None));
        proof {
            assert forall|j: int| 0 <= j < k + 1 implies #[trigger] cand_seq(out@)[j] == (
                locals@[j] as int,
                0int,
                None::<u32>,
            ) by {
                if j < k {
                    assert(out@[j] == prev[j]);
                    assert(cand_seq(prev)[j] == (locals@[j] as int, 0int, None::<u32>));
                }
            }
        }
        k = k + 1;
    }
    let nl = locals.len();
    let mut k: usize = 0;
    while k < sorted.len()
        invariant
            k <= sorted@.len(),
            nl == locals@.len(),
            sorted@ == ordered_by(imports@, before_fn),
            sorted@.len() == imports@.len(),
            out@.len() == nl + k,
            forall|j: int| 0 <= j < nl ==> #[trigger] cand_seq(out@)[j] == (locals@[j] as int, 0int, None::<u32>),
            forall|j: int|
                0 <= j < k ==> #[trigger] cand_seq(out@)[nl + j] == (
                    sorted@[j].1 as int,
                    sorted@[j].2 as int,
                    Some(sorted@[j].3),
                ),
        decreases sorted@.len() - k,
    {
        let e = sorted[k];
        let ghost prev = out@;
        out.push((e.1, e.2, Some(e.3)));
        proof {
            assert forall|j: int| 0 <= j < nl implies #[trigger] cand_seq(out@)[j] == (
                locals@[j] as int,
                0int,
                None::<u32>,
            ) by {
                assert(out@[j] == prev[j]);
                assert(cand_seq(prev)[j] == (locals@[j] as int, 0int, None::<u32>));
            }
            assert forall|j: int| 0 <= j < k + 1 implies #[trigger] cand_seq(out@)[nl + j] == (
                sorted@[j].1 as int,
                sorted@[j].2 as int,
                Some(sorted@[j].3),
            ) by {
                if j < k {
                    assert(out@[nl + j] == prev[nl + j]);
                    assert(cand_seq(prev)[nl + j] == (sorted@[j].1 as int, sorted@[j].2 as int, Some(sorted@[j].3)));
                }
            }
        }
        k = k + 1;
    }
    proof {
        let cs = locals@.map_values(|x: usize| x as int).map_values(|i: int| (i, 0int, None::<u32>))
            + ordered_by(
            import_seq(imports@),
            keyed_before(import_seq(imports@).map_values(|e: (int, int, int, u32)| import_key(offers@, e))),
        ).map_values(|e: (int, int, int, u32)| (e.1, e.2, Some(e.3)));
        assert forall|j: int| 0 <= j < out@.len() implies cand_seq(out@)[j] == cs[j] by {
            if j < nl {
            } else {
                let r = j - nl;
                assert(cand_seq(out@)[nl + r] == (sorted@[r].1 as int, sorted@[r].2 as int, Some(sorted@[r].3)));
            }
        }
        assert(cand_seq(out@) =~= cs);
        assert forall|j: int| 0 <= j < out@.len() implies proc_candidate_ok(
            offers@,
            order,
            table@,
            #[trigger] cand_seq(out@)[j],
        ) by {
            if j < nl {
                assert(cand_seq(out@)[j] == (locals@[j] as int, 0int, None::<u32>));
            } else {
                let r = j - nl;
                let i = index_at(before_fn, imports@.len() as int, r);
                assert(sorted@[r] == imports@[i]);
                assert(cand_seq(out@)[nl + r] == (sorted@[r].1 as int, sorted@[r].2 as int, Some(sorted@[r].3)));
            }
        }
    }
    Ok(out)
}

/// A firm's cash: as changed so far, else as registered.
pub open spec fn lazy_cash(firms: Map<u32, Firm>, cash: Map<u32, i64>, id: u32) -> int {
    if cash.contains_key(id) {
        cash[id] as int
    } else {
        firms[id].spec_cash() as int
    }
}

/// A firm's inventory: each good as changed so far (a good at zero is absent), else as
/// registered.
pub open spec fn lazy_stock(firms: Map<u32, Firm>, stock: Map<(u32, u32), u64>, id: u32) -> Map<u32, u64> {
    Map::new(
        |g: u32|
            if stock.contains_key((id, g)) {
                stock[(id, g)] > 0
            } else {
                firms[id].spec_inventories().contains_key(g)
            },
        |g: u32|
            if stock.contains_key((id, g)) {
                stock[(id, g)]
            } else {
                firms[id].spec_inventories()[g]
            },
    )
}

/// The ledgers of the registered firms, with the changes made so far.
pub open spec fn lazy_ledgers(firms: Map<u32, Firm>, cash: Map<u32, i64>, stock: Map<(u32, u32), u64>) -> Map<
    u32,
    Ledger,
> {
    Map::new(
        |id: u32| firms.contains_key(id),
        |id: u32| Ledger { cash: lazy_cash(firms, cash, id), stock: lazy_stock(firms, stock, id) },
    )
}

/// With no change made, the ledgers are the registered ones.
pub proof fn lemma_lazy_start(firms: Map<u32, Firm>)
    ensures
        lazy_ledgers(firms, Map::empty(), Map::empty()) == firms.map_values(|f: Firm| ledger_of(f)),
{
    assert forall|id: u32| firms.contains_key(id) implies lazy_ledgers(firms, Map::empty(), Map::empty())[id]
        == ledger_of(firms[id]) by {
        assert(lazy_stock(firms, Map::empty(), id) =~= firms[id].spec_inventories());
    }
    assert(lazy_ledgers(firms, Map::empty(), Map::empty()) =~= firms.map_values(|f: Firm| ledger_of(f)));
}

/// Recording a firm's new cash changes only that ledger's cash.
pub proof fn lemma_lazy_cash_set(firms: Map<u32, Firm>, cash: Map<u32, i64>, stock: Map<(u32, u32), u64>, id: u32, v: i64)
    requires
        firms.contains_key(id),
    ensures
        lazy_ledgers(firms, cash.insert(id, v), stock) == lazy_ledgers(firms, cash, stock).insert(
            id,
            with_cash(lazy_ledgers(firms, cash, stock)[id], v as int),
        ),
{
    assert(lazy_ledgers(firms, cash.insert(id, v), stock) =~= lazy_ledgers(firms, cash, stock).insert(
        id,
        with_cash(lazy_ledgers(firms, cash, stock)[id], v as int),
    ));
}

/// Recording a firm's new holding of a good changes only that ledger's stock of it.
pub proof fn lemma_lazy_stock_set(
    firms: Map<u32, Firm>,
    cash: Map<u32, i64>,
    stock: Map<(u32, u32), u64>,
    id: u32,
    g: u32,
    v: u64,
)
    requires
        firms.contains_key(id),
    ensures
        lazy_ledgers(firms, cash, stock.insert((id, g), v)) == lazy_ledgers(firms, cash, stock).insert(
            id,
            Ledger {
                stock: if v == 0 {
                    lazy_ledgers(firms, cash, stock)[id].stock.remove(g)
                } else {
                    lazy_ledgers(firms, cash, stock)[id].stock.insert(g, v)
                },
                ..lazy_ledgers(firms, cash, stock)[id]
            },
        ),
{
    let old_l = lazy_ledgers(firms, cash, stock)[id];
    let new_stock = if v == 0 {
        old_l.stock.remove(g)
    } else {
        old_l.stock.insert(g, v)
    };
    assert(lazy_stock(firms, stock.insert((id, g), v), id) =~= new_stock);
    assert forall|k: u32| k != id && firms.contains_key(k) implies lazy_stock(firms, stock.insert((id, g), v), k)
        == lazy_stock(firms, stock, k) by {
        assert(lazy_stock(firms, stock.insert((id, g), v), k) =~= lazy_stock(firms, stock, k));
    }
    assert(lazy_ledgers(firms, cash, stock.insert((id, g), v)) =~= lazy_ledgers(firms, cash, stock).insert(
        id,
        Ledger { stock: new_stock, ..old_l },
    ));
}

/// Every change recorded so far belongs to a registered firm.
pub open spec fn lazy_keys_known(firms: Map<u32, Firm>, cash: Map<u32, i64>, stock: Map<(u32, u32), u64>) -> bool {
    &&& forall|id: u32| #[trigger] cash.contains_key(id) ==> firms.contains_key(id)
    &&& forall|k: (u32, u32)| #[trigger] stock.contains_key(k) ==> firms.contains_key(k.0)
}

/// A firm's current cash.
pub(crate) fn cash_of(firms: &BTreeMap<u32, Firm>, cash: &BTreeMap<u32, i64>, id: u32) -> (r: i64)
    requires
        firms@.contains_key(id),
    ensures
        r as int == lazy_cash(firms@, cash@, id),
{
    match cash.get(&id) {
        Some(v) => *v,
        None => firms.get(&id).unwrap().cash().minor_units(),
    }
}

/// A firm's current holding of a good.
pub(crate) fn stock_of(firms: &BTreeMap<u32, Firm>, stock: &BTreeMap<(u32, u32), u64>, id: u32, g: u32) -> (r: u64)
    requires
        firms@.contains_key(id),
    ensures
        r as int == held(lazy_stock(firms@, stock@, id), g),
{
    match stock.get(&(id, g)) {
        Some(v) => *v,
        None => firms.get(&id).unwrap().inventory_of(GoodId::new(g)).get(),
    }
}

/// Moves the cash and stock of one fill (see `fill_ledgers`).
#[verifier::rlimit(40)]
fn apply_fill_ledgers(
    firms: &BTreeMap<u32, Firm>,
    routes: &BTreeMap<u32, LogisticsRoute>,
    cash: &mut BTreeMap<u32, i64>,
    stock: &mut BTreeMap<(u32, u32), u64>,
    buyer: u32,
    seller: FirmId,
    good: GoodId,
    q: u64,
    spend: i64,
    goods: i64,
    freight: i64,
    route: Option<u32>,
) -> (r: Result<(), WorldError>)
    requires
        firms@.contains_key(buyer),
        q > 0,
        0 <= spend <= lazy_cash(firms@, old(cash)@, buyer),
        lazy_keys_known(firms@, old(cash)@, old(stock)@),
    ensures
        lazy_keys_known(firms@, final(cash)@, final(stock)@),
        match fill_ledgers(
            lazy_ledgers(firms@, old(cash)@, old(stock)@),
            routes@,
            buyer,
            seller,
            good,
            q as int,
            spend as int,
            goods as int,
            freight as int,
            route,
        ) {
            Err(e) => r == Err::<(), WorldError>(e),
            Ok(l) => r is Ok && lazy_ledgers(firms@, final(cash)@, final(stock)@) == l,
        },
{
    let ghost l0 = lazy_ledgers(firms@, cash@, stock@);
    let buyer_cash = cash_of(firms, cash, buyer);
    proof {
        lemma_lazy_cash_set(firms@, cash@, stock@, buyer, (buyer_cash - spend) as i64);
    }
    cash.insert(buyer, buyer_cash - spend);
    let ghost l1 = lazy_ledgers(firms@, cash@, stock@);
    assert(l1 == l0.insert(buyer, with_cash(l0[buyer], l0[buyer].cash - spend)));
    if !firms.contains_key(&seller.get()) {
        return Err(WorldError::UnknownFirm(seller));
    }
    let seller_held = stock_of(firms, stock, seller.get(), good.get());
    if seller_held < q {
        return Err(WorldError::InsufficientFirmInventory { firm: seller, good });
    }
    proof {
        lemma_lazy_stock_set(firms@, cash@, stock@, seller@, good@, (seller_held - q) as u64);
        assert(stock_taken(l1[seller@], good@, q as int).stock =~= if seller_held - q == 0 {
            l1[seller@].stock.remove(good@)
        } else {
            l1[seller@].stock.insert(good@, (seller_held - q) as u64)
        });
    }
    stock.insert((seller.get(), good.get()), seller_held - q);
    let ghost l2 = lazy_ledgers(firms@, cash@, stock@);
    assert(l2 == l1.insert(seller@, stock_taken(l1[seller@], good@, q as int)));
    let buyer_held = stock_of(firms, stock, buyer, good.get());
    if buyer_held > u64::MAX - q {
        return Err(WorldError::ArithmeticOverflow("firm inventory credit"));
    }
    proof {
        lemma_lazy_stock_set(firms@, cash@, stock@, buyer, good@, (buyer_held + q) as u64);
    }
    stock.insert((buyer, good.get()), buyer_held + q);
    let ghost l3 = lazy_ledgers(firms@, cash@, stock@);
    assert(l3 == l2.insert(buyer, stock_added(l2[buyer], good@, q as int)));
    let seller_cash = cash_of(firms, cash, seller.get());
    let paid = match seller_cash.checked_add(goods) {
        Some(v) => v,
        None => {
            return Err(WorldError::ArithmeticOverflow("firm cash"));
        },
    };
    proof {
        lemma_lazy_cash_set(firms@, cash@, stock@, seller@, paid);
    }
    cash.insert(seller.get(), paid);
    let ghost l4 = lazy_ledgers(firms@, cash@, stock@);
    assert(l4 == l3.insert(seller@, with_cash(l3[seller@], l3[seller@].cash + goods)));
    match route {
        None => Ok(()),
        Some(r) => {
            let carrier = match routes.get(&r) {
                Some(definition) => match definition.carrier() {
                    Some(c) => c,
                    None => {
                        return Err(WorldError::InvalidLogistics("procurement import route requires a carrier"));
                    },
                },
                None => {
                    return Err(WorldError::InvalidLogistics("procurement import route requires a carrier"));
                },
            };
            if !firms.contains_key(&carrier.get()) {
                return Err(WorldError::UnknownFirm(carrier));
            }
            let carrier_cash = cash_of(firms, cash, carrier.get());
            let earned = match carrier_cash.checked_add(freight) {
                Some(v) => v,
                None => {
                    return Err(WorldError::ArithmeticOverflow("firm cash"));
                },
            };
            proof {
                lemma_lazy_cash_set(firms@, cash@, stock@, carrier@, earned);
            }
            cash.insert(carrier.get(), earned);
            Ok(())
        },
    }
}

/// The settlement state held by exec values.
pub open spec fn exec_state(
    firms: Map<u32, Firm>,
    cash: Map<u32, i64>,
    stock: Map<(u32, u32), u64>,
    offers: Seq<MarketOffer>,
    capacity: Map<u32, u64>,
    fills: Seq<FirmProcurementFill>,
    unmet: Map<(u32, u32), QuantityMilli>,
    capacity_limited: Set<(u32, u32)>,
    constrained: Set<u32>,
    trade_prices: Map<(u32, u32), Money>,
    purchases: Map<(u32, u32), (u64, i64)>,
) -> ProcState {
    ProcState {
        ledgers: lazy_ledgers(firms, cash, stock),
        offers,
        capacity,
        fills,
        unmet,
        capacity_limited,
        constrained,
        trade_prices,
        purchases,
    }
}

/// One fill attempt (see `proc_step`).
#[verifier::rlimit(60)]
fn procure_one(
    routes: &BTreeMap<u32, LogisticsRoute>,
    firms: &BTreeMap<u32, Firm>,
    cash: &mut BTreeMap<u32, i64>,
    stock: &mut BTreeMap<(u32, u32), u64>,
    offers: &mut Vec<MarketOffer>,
    capacity: &mut BTreeMap<u32, u64>,
    fills: &mut Vec<FirmProcurementFill>,
    constrained: &mut BTreeSet<u32>,
    trade_prices: &mut BTreeMap<(u32, u32), Money>,
    purchases: &mut BTreeMap<(u32, u32), (u64, i64)>,
    unmet: Ghost<Map<(u32, u32), QuantityMilli>>,
    limited: Ghost<Set<(u32, u32)>>,
    need: u64,
    exhausted: bool,
    order: FirmProcurementOrder,
    c: (usize, i64, Option<u32>),
) -> (r: Result<(u64, bool), WorldError>)
    requires
        firms@.contains_key(order.buyer@),
        c.0 < old(offers)@.len(),
        lazy_keys_known(firms@, old(cash)@, old(stock)@),
    ensures
        lazy_keys_known(firms@, final(cash)@, final(stock)@),
        final(offers)@.len() == old(offers)@.len(),
        forall|i: int| 0 <= i < old(offers)@.len() ==> (#[trigger] final(offers)@[i]).unit_price == old(offers)@[i].unit_price,
        match proc_step(
            routes@,
            exec_state(
                firms@,
                old(cash)@,
                old(stock)@,
                old(offers)@,
                old(capacity)@,
                old(fills)@,
                unmet@,
                limited@,
                old(constrained)@,
                old(trade_prices)@,
                old(purchases)@,
            ),
            need as int,
            exhausted,
            order,
            (c.0 as int, c.1 as int, c.2),
        ) {
            Err((e, os, cap)) => r == Err::<(u64, bool), WorldError>(e) && final(offers)@ == os && final(capacity)@ == cap,
            Ok((st, n, ex)) => r == Ok::<(u64, bool), WorldError>((n as u64, ex)) && 0 <= n <= need && exec_state(
                firms@,
                final(cash)@,
                final(stock)@,
                final(offers)@,
                final(capacity)@,
                final(fills)@,
                unmet@,
                limited@,
                final(constrained)@,
                final(trade_prices)@,
                final(purchases)@,
            ) == st,
        },
{
    let offer = offers[c.0];
    let buyer = order.buyer.get();
    let buyer_cash = cash_of(firms, cash, buyer);
    if need == 0 || offer.quantity.get() == 0 || buyer_cash <= 0 {
        return Ok((need, exhausted));
    }
    let price = match offer.unit_price.minor_units().checked_add(c.1) {
        Some(p) => p,
        None => {
            return Err(WorldError::ArithmeticOverflow("firm procurement delivered price"));
        },
    };
    if price <= 0 {
        return Ok((need, exhausted));
    }
    proof {
        assert(buyer_cash * 1000 <= i64::MAX * 1000);
    }
    let affordable_wide: i128 = (buyer_cash as i128) * 1000 / (price as i128);
    let affordable: u64 = if affordable_wide > u64::MAX as i128 {
        u64::MAX
    } else {
        affordable_wide as u64
    };
    let limit: u64 = match c.2 {
        Some(r) => match capacity.get(&r) {
            Some(v) => *v,
            None => u64::MAX,
        },
        None => u64::MAX,
    };
    let mut unconstrained = if need < offer.quantity.get() {
        need
    } else {
        offer.quantity.get()
    };
    if affordable < unconstrained {
        unconstrained = affordable;
    }
    match c.2 {
        Some(r) => {
            if limit < unconstrained {
                constrained.insert(r);
            }
        },
        None => {},
    }
    let q = if limit < unconstrained {
        limit
    } else {
        unconstrained
    };
    let dry = exhausted || (c.2.is_some() && limit == 0);
    if q == 0 {
        return Ok((need, dry));
    }
    proof {
        assert(q <= affordable);
        assert(q as int <= (buyer_cash * 1000) / (price as int));
        assert(price * q <= buyer_cash * 1000) by (nonlinear_arith)
            requires
                q <= (buyer_cash * 1000) / (price as int),
                price > 0,
                q >= 0,
        ;
        assert(price * q <= i64::MAX * 1000);
        assert(-0x8000_0000_0000_0000 * 0xffff_ffff_ffff_ffff <= offer.unit_price@ * q
            <= 0x7fff_ffff_ffff_ffff * 0xffff_ffff_ffff_ffff) by (nonlinear_arith)
            requires
                -0x8000_0000_0000_0000 <= offer.unit_price@ <= 0x7fff_ffff_ffff_ffff,
                0 <= q <= 0xffff_ffff_ffff_ffff,
        ;
    }
    let spend_wide: i128 = (price as i128) * (q as i128) / 1000;
    let goods_wide: i128 = (offer.unit_price.minor_units() as i128) * (q as i128) / 1000;
    proof {
        assert(spend_wide <= buyer_cash) by (nonlinear_arith)
            requires
                price * q <= buyer_cash * 1000,
                spend_wide == price * q / 1000,
                price * q >= 0,
        ;
        assert(0 <= spend_wide) by (nonlinear_arith)
            requires
                spend_wide == price * q / 1000,
                price * q >= 0,
        ;
        assert(goods_wide == tdiv(offer.unit_price@ * q, 1000));
    }
    if goods_wide < i64::MIN as i128 || goods_wide > i64::MAX as i128 {
        return Err(WorldError::ArithmeticOverflow("firm procurement goods spend"));
    }
    let spend = spend_wide as i64;
    let goods = goods_wide as i64;
    let freight = match spend.checked_sub(goods) {
        Some(v) => v,
        None => {
            return Err(WorldError::ArithmeticOverflow("firm procurement freight spend"));
        },
    };
    let ledger_step = apply_fill_ledgers(
        firms,
        routes,
        cash,
        stock,
        buyer,
        offer.seller,
        order.good,
        q,
        spend,
        goods,
        freight,
        c.2,
    );
    match ledger_step {
        Err(e) => {
            return Err(e);
        },
        Ok(()) => {},
    }
    let left = offer.quantity.get() - q;
    offers.set(c.0, MarketOffer { quantity: QuantityMilli::new(left), ..offer });
    let mut dry2 = dry;
    match c.2 {
        Some(r) => {
            match capacity.get(&r) {
                Some(v) => {
                    let remaining_capacity = *v - q;
                    capacity.insert(r, remaining_capacity);
                    if remaining_capacity == 0 && left > 0 {
                        dry2 = true;
                    }
                },
                None => {},
            }
        },
        None => {},
    }
    trade_prices.insert((offer.seller.get(), order.good.get()), offer.unit_price);
    let key = (buyer, order.good.get());
    let bought: (u64, i64) = match purchases.get(&key) {
        Some(v) => *v,
        None => (0, 0),
    };
    let bought_quantity = match bought.0.checked_add(q) {
        Some(v) => v,
        None => {
            return Err(WorldError::ArithmeticOverflow("firm procurement purchase quantity"));
        },
    };
    let bought_spend = match bought.1.checked_add(spend) {
        Some(v) => v,
        None => {
            return Err(WorldError::ArithmeticOverflow("firm procurement purchase spend"));
        },
    };
    purchases.insert(key, (bought_quantity, bought_spend));
    fills.push(
        FirmProcurementFill {
            buyer: order.buyer,
            seller: offer.seller,
            good: order.good,
            quantity: QuantityMilli::new(q),
            spend: Money::from_minor_units(spend),
            goods_spend: Money::from_minor_units(goods),
            freight_spend: Money::from_minor_units(freight),
            route: match c.2 {
                Some(r) => Some(RouteId::new(r)),
                None => None,
            },
        },
    );
    Ok((need - q, dry2))
}

/// Settles one order (see `proc_order`).
#[verifier::rlimit(40)]
fn procure_order(
    routes: &BTreeMap<u32, LogisticsRoute>,
    firms: &BTreeMap<u32, Firm>,
    cash: &mut BTreeMap<u32, i64>,
    stock: &mut BTreeMap<(u32, u32), u64>,
    offers: &mut Vec<MarketOffer>,
    capacity: &mut BTreeMap<u32, u64>,
    fills: &mut Vec<FirmProcurementFill>,
    unmet: &mut BTreeMap<(u32, u32), QuantityMilli>,
    limited: &mut BTreeSet<(u32, u32)>,
    constrained: &mut BTreeSet<u32>,
    trade_prices: &mut BTreeMap<(u32, u32), Money>,
    purchases: &mut BTreeMap<(u32, u32), (u64, i64)>,
    order: FirmProcurementOrder,
    table: &BTreeMap<(u32, u32), (RouteId, Money)>,
) -> (r: Result<(), WorldError>)
    requires
        firms@.contains_key(order.buyer@),
        lazy_keys_known(firms@, old(cash)@, old(stock)@),
    ensures
        lazy_keys_known(firms@, final(cash)@, final(stock)@),
        final(offers)@.len() == old(offers)@.len(),
        forall|i: int| 0 <= i < old(offers)@.len() ==> (#[trigger] final(offers)@[i]).unit_price == old(offers)@[i].unit_price,
        match proc_order(
            routes@,
            exec_state(
                firms@,
                old(cash)@,
                old(stock)@,
                old(offers)@,
                old(capacity)@,
                old(fills)@,
                old(unmet)@,
                old(limited)@,
                old(constrained)@,
                old(trade_prices)@,
                old(purchases)@,
            ),
            order,
            table@,
        ) {
            Err((e, os, cap)) => r == Err::<(), WorldError>(e) && final(offers)@ == os && final(capacity)@ == cap,
            Ok(st) => r is Ok && exec_state(
                firms@,
                final(cash)@,
                final(stock)@,
                final(offers)@,
                final(capacity)@,
                final(fills)@,
                final(unmet)@,
                final(limited)@,
                final(constrained)@,
                final(trade_prices)@,
                final(purchases)@,
            ) == st,
        },
{
    let ghost st0 = exec_state(
        firms@,
        cash@,
        stock@,
        offers@,
        capacity@,
        fills@,
        unmet@,
        limited@,
        constrained@,
        trade_prices@,
        purchases@,
    );
    let cands = match procurement_candidates(order, offers, table) {
        Err(e) => {
            return Err(e);
        },
        Ok(v) => v,
    };
    let ghost cs = cand_seq(cands@);
    let ghost offers0 = offers@;
    let mut need = order.quantity.get();
    let mut dry = false;
    let mut k: usize = 0;
    proof {
        assert(cs.skip(0) =~= cs);
    }
    while k < cands.len()
        invariant
            offers0 == old(offers)@,
            st0 == exec_state(
                firms@,
                old(cash)@,
                old(stock)@,
                old(offers)@,
                old(capacity)@,
                old(fills)@,
                old(unmet)@,
                old(limited)@,
                old(constrained)@,
                old(trade_prices)@,
                old(purchases)@,
            ),
            proc_candidates(offers0, order, table@) == Ok::<Seq<(int, int, Option<u32>)>, WorldError>(cs),
            firms@.contains_key(order.buyer@),
            lazy_keys_known(firms@, cash@, stock@),
            offers@.len() == offers0.len(),
            forall|i: int| 0 <= i < offers0.len() ==> (#[trigger] offers@[i]).unit_price == offers0[i].unit_price,
            cs == cand_seq(cands@),
            forall|j: int| 0 <= j < cands@.len() ==> proc_candidate_ok(offers0, order, table@, #[trigger] cs[j]),
            unmet@ == old(unmet)@,
            limited@ == old(limited)@,
            k <= cands.len(),
            proc_fill(routes@, st0, order.quantity@ as int, false, order, cs) == proc_fill(
                routes@,
                exec_state(
                    firms@,
                    cash@,
                    stock@,
                    offers@,
                    capacity@,
                    fills@,
                    unmet@,
                    limited@,
                    constrained@,
                    trade_prices@,
                    purchases@,
                ),
                need as int,
                dry,
                order,
                cs.skip(k as int),
            ),
        decreases cands.len() - k,
    {
        let c = cands[k];
        proof {
            assert(cs[k as int] == (c.0 as int, c.1 as int, c.2));
            assert(proc_candidate_ok(offers0, order, table@, cs[k as int]));
            if c.2 is Some {
                assert(table@.contains_key((offers0[c.0 as int].region@, order.region@)));
            }
            assert(offers@[c.0 as int].unit_price == offers0[c.0 as int].unit_price);
            assert(cs.skip(k as int)[0] == cs[k as int]);
            assert(cs.skip(k as int).drop_first() =~= cs.skip(k + 1));
        }
        let step = procure_one(
            routes,
            firms,
            cash,
            stock,
            offers,
            capacity,
            fills,
            constrained,
            trade_prices,
            purchases,
            Ghost(unmet@),
            Ghost(limited@),
            need,
            dry,
            order,
            c,
        );
        match step {
            Err(e) => {
                return Err(e);
            },
            Ok((n, ex)) => {
                need = n;
                dry = ex;
            },
        }
        k = k + 1;
    }
    proof {
        assert(cs.skip(cands@.len() as int) =~= Seq::<(int, int, Option<u32>)>::empty());
    }
    if need > 0 {
        let key = (order.buyer.get(), order.good.get());
        if dry {
            limited.insert(key);
        }
        unmet.insert(key, QuantityMilli::new(need));
    }
    Ok(())
}

/// Two firms that differ at most in cash and inventory.
pub open spec fn same_identity(a: Firm, b: Firm) -> bool {
    &&& a.spec_id() == b.spec_id()
    &&& a.spec_name() == b.spec_name()
    &&& a.spec_region() == b.spec_region()
    &&& a.spec_recipe() == b.spec_recipe()
    &&& a.spec_workers() == b.spec_workers()
    &&& a.spec_capacity() == b.spec_capacity()
}

/// Writes the recorded cash into the firms.
pub(crate) fn commit_cash(firms: &mut BTreeMap<u32, Firm>, cash: &BTreeMap<u32, i64>)
    requires
        forall|id: u32| #[trigger] cash@.contains_key(id) ==> old(firms)@.contains_key(id),
    ensures
        final(firms)@.dom() == old(firms)@.dom(),
        forall|id: u32|
            #[trigger] old(firms)@.contains_key(id) ==> same_identity(final(firms)@[id], old(firms)@[id])
                && final(firms)@[id].spec_inventories() == old(firms)@[id].spec_inventories()
                && final(firms)@[id].spec_cash() as int == lazy_cash(old(firms)@, cash@, id),
{
    let ghost f0 = firms@;
    let ids = keys_in_order(cash);
    let mut j: usize = 0;
    while j < ids.len()
        invariant
            f0 == old(firms)@,
            forall|id: u32| #[trigger] cash@.contains_key(id) ==> f0.contains_key(id),
            forall|i: int| 0 <= i < ids@.len() ==> cash@.contains_key(#[trigger] ids@[i]),
            ids@.no_duplicates(),
            j <= ids.len(),
            firms@.dom() == f0.dom(),
            forall|id: u32|
                #[trigger] f0.contains_key(id) ==> same_identity(firms@[id], f0[id])
                    && firms@[id].spec_inventories() == f0[id].spec_inventories()
                    && firms@[id].spec_cash() as int == lazy_cash(
                    f0,
                    cash@.restrict(ids@.take(j as int).to_set()),
                    id,
                ),
        decreases ids.len() - j,
    {
        let id = ids[j];
        let value = *cash.get(&id).unwrap();
        let mut firm = firms.remove(&id).unwrap();
        firm.set_cash(Money::from_minor_units(value));
        firms.insert(id, firm);
        proof {
            assert(ids@.take(j + 1) =~= ids@.take(j as int).push(id));
            ids@.take(j as int).lemma_push_to_set_commute(id);
            assert forall|k: u32| #[trigger] f0.contains_key(k) implies same_identity(firms@[k], f0[k])
                && firms@[k].spec_inventories() == f0[k].spec_inventories() && firms@[k].spec_cash() as int
                == lazy_cash(f0, cash@.restrict(ids@.take(j + 1).to_set()), k) by {
                if k != id {
                    assert(cash@.restrict(ids@.take(j + 1).to_set()).contains_key(k) == cash@.restrict(
                        ids@.take(j as int).to_set(),
                    ).contains_key(k));
                }
            }
        }
        j = j + 1;
    }
    proof {
        assert(ids@.take(ids@.len() as int) =~= ids@);
        assert(cash@.restrict(ids@.to_set()) =~= cash@);
    }
}

/// Writes the recorded holdings into the firms.
pub(crate) fn commit_stock(firms: &mut BTreeMap<u32, Firm>, stock: &BTreeMap<(u32, u32), u64>)
    requires
        forall|k: (u32, u32)| #[trigger] stock@.contains_key(k) ==> old(firms)@.contains_key(k.0),
    ensures
        final(firms)@.dom() == old(firms)@.dom(),
        forall|id: u32|
            #[trigger] old(firms)@.contains_key(id) ==> same_identity(final(firms)@[id], old(firms)@[id])
                && final(firms)@[id].spec_cash() == old(firms)@[id].spec_cash()
                && final(firms)@[id].spec_inventories() == lazy_stock(old(firms)@, stock@, id),
{
    let ghost f0 = firms@;
    let keys = pair_keys_in_order(stock);
    proof {
        crate::ordered::lemma_pairs_no_duplicates(keys@);
    }
    let mut j: usize = 0;
    while j < keys.len()
        invariant
            f0 == old(firms)@,
            forall|k: (u32, u32)| #[trigger] stock@.contains_key(k) ==> f0.contains_key(k.0),
            forall|i: int| 0 <= i < keys@.len() ==> stock@.contains_key(#[trigger] keys@[i]),
            keys@.to_set() == stock@.dom(),
            keys@.no_duplicates(),
            j <= keys.len(),
            firms@.dom() == f0.dom(),
            forall|id: u32|
                #[trigger] f0.contains_key(id) ==> same_identity(firms@[id], f0[id]) && firms@[id].spec_cash()
                    == f0[id].spec_cash() && firms@[id].spec_inventories() == lazy_stock(
                    f0,
                    stock@.restrict(keys@.take(j as int).to_set()),
                    id,
                ),
        decreases keys.len() - j,
    {
        let key = keys[j];
        let value = *stock.get(&key).unwrap();
        let ghost before = stock@.restrict(keys@.take(j as int).to_set());
        let mut firm = firms.remove(&key.0).unwrap();
        firm.set_inventory(key.1, value);
        firms.insert(key.0, firm);
        proof {
            assert(keys@.take(j + 1) =~= keys@.take(j as int).push(key));
            keys@.take(j as int).lemma_push_to_set_commute(key);
            let after = stock@.restrict(keys@.take(j + 1).to_set());
            assert(after =~= before.insert(key, value));
            assert forall|id: u32| #[trigger] f0.contains_key(id) implies same_identity(firms@[id], f0[id])
                && firms@[id].spec_cash() == f0[id].spec_cash() && firms@[id].spec_inventories() == lazy_stock(
                f0,
                after,
                id,
            ) by {
                if id == key.0 {
                    assert(firms@[id].spec_inventories() =~= lazy_stock(f0, after, id));
                } else {
                    assert(lazy_stock(f0, after, id) =~= lazy_stock(f0, before, id));
                }
            }
        }
        j = j + 1;
    }
    proof {
        assert(keys@.take(keys@.len() as int) =~= keys@);
        assert(stock@.restrict(keys@.to_set()) =~= stock@);
    }
}

/// What a procurement settlement moved, what stayed unmet (by buyer and good), the
/// orders left unmet because a route ran dry, the routes that bound a fill, the price
/// each supplier last traded a good at, and each buyer's purchases of each good
/// (quantity, spend).
#[derive(Clone, Debug, PartialEq, Eq)]
pub struct ProcurementSettlement {
    pub fills: Vec<FirmProcurementFill>,
    pub unmet: BTreeMap<(u32, u32), QuantityMilli>,
    pub capacity_limited: BTreeSet<(u32, u32)>,
    pub constrained_routes: BTreeSet<u32>,
    pub trade_prices: BTreeMap<(u32, u32), Money>,
    pub purchases: BTreeMap<(u32, u32), (u64, i64)>,
}

/// The world after a settlement: only the firms' cash and inventories changed, to the
/// settled ledgers.
pub open spec fn settled_world(before: WorldView, after: WorldView, ledgers: Map<u32, Ledger>) -> bool {
    &&& after == (WorldView { firms: after.firms, ..before })
    &&& after.firms.dom() == before.firms.dom()
    &&& forall|id: u32|
        #[trigger] before.firms.contains_key(id) ==> same_identity(after.firms[id], before.firms[id])
            && ledger_of(after.firms[id]) == ledgers[id]
}

/// The outcome of settling `orders` against the offer book and route capacity.
pub open spec fn procurement_result(
    w: WorldView,
    orders: Seq<FirmProcurementOrder>,
    offers: Seq<MarketOffer>,
    capacity: Map<u32, u64>,
    table: DeliveryTable,
) -> Result<ProcState, ProcFailure> {
    proc_orders(w.logistics_routes, proc_start(w.firms, offers, capacity), orders, table)
}

/// The cash of the firms `ids`, summed.
pub open spec fn cash_total(ledgers: Map<u32, Ledger>, ids: Seq<u32>) -> int
    decreases ids.len(),
{
    if ids.len() == 0 {
        0
    } else {
        cash_total(ledgers, ids.drop_last()) + ledgers[ids.last()].cash
    }
}

/// The holdings of `good` of the firms `ids`, summed.
pub open spec fn stock_total(ledgers: Map<u32, Ledger>, ids: Seq<u32>, good: u32) -> int
    decreases ids.len(),
{
    if ids.len() == 0 {
        0
    } else {
        stock_total(ledgers, ids.drop_last(), good) + held(ledgers[ids.last()].stock, good)
    }
}

/// Changing one ledger changes the totals over distinct firms by that ledger's change,
/// if the firm is among them, and not at all otherwise.
pub proof fn lemma_totals_after_update(m: Map<u32, Ledger>, ids: Seq<u32>, k: u32, l: Ledger, good: u32)
    requires
        ids.no_duplicates(),
    ensures
        cash_total(m.insert(k, l), ids) == cash_total(m, ids) + if ids.contains(k) {
            l.cash - m[k].cash
        } else {
            0
        },
        stock_total(m.insert(k, l), ids, good) == stock_total(m, ids, good) + if ids.contains(k) {
            held(l.stock, good) - held(m[k].stock, good)
        } else {
            0
        },
    decreases ids.len(),
{
    if ids.len() > 0 {
        let rest = ids.drop_last();
        assert(rest.no_duplicates());
        lemma_totals_after_update(m, rest, k, l, good);
        if ids.last() == k {
            assert(!rest.contains(k));
        }
        assert(ids.contains(k) == (rest.contains(k) || ids.last() == k)) by {
            if ids.contains(k) {
                let i = choose|i: int| 0 <= i < ids.len() && ids[i] == k;
                if i < ids.len() - 1 {
                    assert(rest[i] == k);
                }
            }
            if rest.contains(k) {
                let i = choose|i: int| 0 <= i < rest.len() && rest[i] == k;
                assert(ids[i] == k);
            }
        }
    }
}

/// One fill moves cash and goods between firms among `ids` without creating or
/// destroying either, and touches no other firm.
pub proof fn lemma_fill_ledgers_conserve(
    ledgers: Map<u32, Ledger>,
    routes: Map<u32, LogisticsRoute>,
    buyer: u32,
    seller: FirmId,
    good: GoodId,
    q: int,
    spend: int,
    goods: int,
    ids: Seq<u32>,
    g: u32,
    route: Option<u32>,
)
    requires
        ids.no_duplicates(),
        ids.to_set() == ledgers.dom(),
        ledgers.contains_key(buyer),
        q > 0,
        route is None ==> spend == goods,
        fill_ledgers(ledgers, routes, buyer, seller, good, q, spend, goods, spend - goods, route) is Ok,
    ensures
        ({
            let l = fill_ledgers(ledgers, routes, buyer, seller, good, q, spend, goods, spend - goods, route)->Ok_0;
            &&& l.dom() == ledgers.dom()
            &&& cash_total(l, ids) == cash_total(ledgers, ids)
            &&& stock_total(l, ids, g) == stock_total(ledgers, ids, g)
        }),
{
    assert(ids.to_set().contains(buyer));
    let l1 = ledgers.insert(buyer, with_cash(ledgers[buyer], ledgers[buyer].cash - spend));
    lemma_totals_after_update(ledgers, ids, buyer, with_cash(ledgers[buyer], ledgers[buyer].cash - spend), g);
    assert(l1.dom() =~= ledgers.dom());
    assert(ids.to_set().contains(seller@));
    assert(held(l1[seller@].stock, good@) >= q);
    let t = stock_taken(l1[seller@], good@, q);
    let l2 = l1.insert(seller@, t);
    lemma_totals_after_update(l1, ids, seller@, t, g);
    assert(l2.dom() =~= ledgers.dom());
    assert(held(t.stock, g) == held(l1[seller@].stock, g) - if g == good@ {
        q
    } else {
        0
    });
    assert(held(l2[buyer].stock, good@) + q <= u64::MAX);
    let a = stock_added(l2[buyer], good@, q);
    assert(held(a.stock, g) == held(l2[buyer].stock, g) + if g == good@ {
        q
    } else {
        0
    });
    let l3 = l2.insert(buyer, a);
    lemma_totals_after_update(l2, ids, buyer, a, g);
    assert(l3.dom() =~= ledgers.dom());
    let c = with_cash(l3[seller@], l3[seller@].cash + goods);
    let l4 = l3.insert(seller@, c);
    lemma_totals_after_update(l3, ids, seller@, c, g);
    assert(l4.dom() =~= ledgers.dom());
    match route {
        None => {},
        Some(r) => {
            let carrier = routes[r].spec_carrier()->0;
            assert(ids.to_set().contains(carrier@));
            let f = with_cash(l4[carrier@], l4[carrier@].cash + (spend - goods));
            lemma_totals_after_update(l4, ids, carrier@, f, g);
            assert(l4.insert(carrier@, f).dom() =~= ledgers.dom());
        },
    }
}

/// A local candidate carries no tariff.
pub open spec fn locals_untariffed(cands: Seq<(int, int, Option<u32>)>) -> bool {
    forall|j: int| 0 <= j < cands.len() ==> (#[trigger] cands[j]).2 is None ==> cands[j].1 == 0
}

/// One fill attempt conserves cash and goods over all firms.
pub proof fn lemma_step_conserves(
    routes: Map<u32, LogisticsRoute>,
    st: ProcState,
    need: int,
    exhausted: bool,
    order: FirmProcurementOrder,
    c: (int, int, Option<u32>),
    ids: Seq<u32>,
    g: u32,
)
    requires
        ids.no_duplicates(),
        ids.to_set() == st.ledgers.dom(),
        st.ledgers.contains_key(order.buyer@),
        c.2 is None ==> c.1 == 0,
        need >= 0,
        proc_step(routes, st, need, exhausted, order, c) is Ok,
    ensures
        ({
            let st2 = proc_step(routes, st, need, exhausted, order, c)->Ok_0.0;
            &&& proc_step(routes, st, need, exhausted, order, c)->Ok_0.1 >= 0
            &&& st2.ledgers.dom() == st.ledgers.dom()
            &&& cash_total(st2.ledgers, ids) == cash_total(st.ledgers, ids)
            &&& stock_total(st2.ledgers, ids, g) == stock_total(st.ledgers, ids, g)
        }),
{
    let offer = st.offers[c.0];
    let cash = st.ledgers[order.buyer@].cash;
    let price = offer.unit_price@ + c.1;
    if need == 0 || offer.quantity@ == 0 || cash <= 0 || !fits_i64(price) || price <= 0 {
    } else {
        let affordable = min_int(cash * 1000 / price, u64::MAX as int);
        let limit = route_limit(st.capacity, c.2);
        let unconstrained = min_int(min_int(need, offer.quantity@ as int), affordable);
        let q = min_int(unconstrained, limit);
        if q != 0 {
            let spend = price * q / 1000;
            let goods = tdiv(offer.unit_price@ * q, 1000);
            if fits_i64(spend) && fits_i64(goods) && fits_i64(spend - goods) {
                if c.2 is None {
                    assert(offer.unit_price@ == price);
                    assert(offer.unit_price@ * q >= 0) by (nonlinear_arith)
                        requires
                            offer.unit_price@ > 0,
                            q >= 0,
                    ;
                }
                assert(0 <= cash * 1000 / price) by (nonlinear_arith)
                    requires
                        cash > 0,
                        price > 0,
                ;
                assert(q > 0);
                lemma_fill_ledgers_conserve(
                    st.ledgers,
                    routes,
                    order.buyer@,
                    offer.seller,
                    order.good,
                    q,
                    spend,
                    goods,
                    ids,
                    g,
                    c.2,
                );
            }
        }
    }
}

/// Filling an order from its candidates conserves cash and goods over all firms.
pub proof fn lemma_fill_conserves(
    routes: Map<u32, LogisticsRoute>,
    st: ProcState,
    need: int,
    exhausted: bool,
    order: FirmProcurementOrder,
    cands: Seq<(int, int, Option<u32>)>,
    ids: Seq<u32>,
    g: u32,
)
    requires
        ids.no_duplicates(),
        ids.to_set() == st.ledgers.dom(),
        st.ledgers.contains_key(order.buyer@),
        locals_untariffed(cands),
        need >= 0,
        proc_fill(routes, st, need, exhausted, order, cands) is Ok,
    ensures
        ({
            let st2 = proc_fill(routes, st, need, exhausted, order, cands)->Ok_0.0;
            &&& st2.ledgers.dom() == st.ledgers.dom()
            &&& cash_total(st2.ledgers, ids) == cash_total(st.ledgers, ids)
            &&& stock_total(st2.ledgers, ids, g) == stock_total(st.ledgers, ids, g)
        }),
    decreases cands.len(),
{
    if cands.len() > 0 {
        assert(cands[0].2 is None ==> cands[0].1 == 0);
        lemma_step_conserves(routes, st, need, exhausted, order, cands[0], ids, g);
        let (st2, need2, ex2) = proc_step(routes, st, need, exhausted, order, cands[0])->Ok_0;
        assert(locals_untariffed(cands.drop_first())) by {
            assert forall|j: int| 0 <= j < cands.drop_first().len() && (#[trigger] cands.drop_first()[j]).2 is None
                implies cands.drop_first()[j].1 == 0 by {
                assert(cands.drop_first()[j] == cands[j + 1]);
            }
        }
        lemma_fill_conserves(routes, st2, need2, ex2, order, cands.drop_first(), ids, g);
    }
}

/// Candidates carry a tariff only when imported.
pub proof fn lemma_candidates_untariffed(offers: Seq<MarketOffer>, order: FirmProcurementOrder, table: DeliveryTable)
    requires
        proc_candidates(offers, order, table) is Ok,
    ensures
        locals_untariffed(proc_candidates(offers, order, table)->Ok_0),
{
    let cs = proc_candidates(offers, order, table)->Ok_0;
    let locals = proc_locals(offers, order, offers.len() as int).map_values(|i: int| (i, 0int, None::<u32>));
    assert forall|j: int| 0 <= j < cs.len() && (#[trigger] cs[j]).2 is None implies cs[j].1 == 0 by {
        if j < locals.len() {
            assert(cs[j] == locals[j]);
        }
    }
}

/// Settling orders conserves cash and goods over all firms.
pub proof fn lemma_orders_conserve(
    routes: Map<u32, LogisticsRoute>,
    st: ProcState,
    orders: Seq<FirmProcurementOrder>,
    table: DeliveryTable,
    ids: Seq<u32>,
    g: u32,
)
    requires
        ids.no_duplicates(),
        ids.to_set() == st.ledgers.dom(),
        forall|k: int| 0 <= k < orders.len() ==> st.ledgers.contains_key((#[trigger] orders[k]).buyer@),
        proc_orders(routes, st, orders, table) is Ok,
    ensures
        ({
            let end = proc_orders(routes, st, orders, table)->Ok_0;
            &&& end.ledgers.dom() == st.ledgers.dom()
            &&& cash_total(end.ledgers, ids) == cash_total(st.ledgers, ids)
            &&& stock_total(end.ledgers, ids, g) == stock_total(st.ledgers, ids, g)
        }),
    decreases orders.len(),
{
    if orders.len() > 0 {
        let order = orders[0];
        assert(st.ledgers.contains_key(order.buyer@));
        lemma_candidates_untariffed(st.offers, order, table);
        let cs = proc_candidates(st.offers, order, table)->Ok_0;
        lemma_fill_conserves(routes, st, order.quantity@ as int, false, order, cs, ids, g);
        let st2 = proc_order(routes, st, order, table)->Ok_0;
        let rest = orders.drop_first();
        assert forall|k: int| 0 <= k < rest.len() implies st2.ledgers.contains_key((#[trigger] rest[k]).buyer@) by {
            assert(rest[k] == orders[k + 1]);
        }
        lemma_orders_conserve(routes, st2, rest, table, ids, g);
    }
}

/// Settling procurement moves money and goods between firms without creating or
/// destroying either: after a successful settlement the cash of all firms, and their
/// holdings of every good, add up to what they did before.
pub proof fn lemma_procurement_conserves_cash_and_goods(
    w: WorldView,
    orders: Seq<FirmProcurementOrder>,
    offers: Seq<MarketOffer>,
    capacity: Map<u32, u64>,
    table: DeliveryTable,
    ids: Seq<u32>,
    good: u32,
)
    requires
        ids.no_duplicates(),
        ids.to_set() == w.firms.dom(),
        forall|k: int| 0 <= k < orders.len() ==> w.firms.contains_key((#[trigger] orders[k]).buyer@),
        procurement_result(w, orders, offers, capacity, table) is Ok,
    ensures
        ({
            let end = procurement_result(w, orders, offers, capacity, table)->Ok_0;
            let start = w.firms.map_values(|f: Firm| ledger_of(f));
            &&& end.ledgers.dom() == w.firms.dom()
            &&& cash_total(end.ledgers, ids) == cash_total(start, ids)
            &&& stock_total(end.ledgers, ids, good) == stock_total(start, ids, good)
        }),
{
    let st = proc_start(w.firms, offers, capacity);
    assert(st.ledgers.dom() =~= w.firms.dom());
    lemma_orders_conserve(w.logistics_routes, st, orders, table, ids, good);
}

/// What one delivery of `order` looks like: to the ordering firm, of its good, from
/// another firm, a positive quantity, a payment that splits exactly into the goods price
/// and the freight, and no freight on a local delivery (one without a route).
pub open spec fn proc_fill_serves(f: FirmProcurementFill, order: FirmProcurementOrder) -> bool {
    &&& f.buyer == order.buyer
    &&& f.good == order.good
    &&& f.seller != order.buyer
    &&& f.quantity@ > 0
    &&& f.spend@ == f.goods_spend@ + f.freight_spend@
    &&& f.route is None ==> f.freight_spend@ == 0
}

/// The quantities delivered by each procurement fill.
pub open spec fn proc_fill_quantities(fills: Seq<FirmProcurementFill>) -> Seq<int> {
    Seq::new(fills.len(), |i: int| fills[i].quantity@ as int)
}

/// Candidates of `order` in an offer book: valid offers of another seller and of the
/// ordered good, a local one (without a route) carrying no tariff.
pub open spec fn proc_candidates_valid(
    offers: Seq<MarketOffer>,
    order: FirmProcurementOrder,
    cands: Seq<(int, int, Option<u32>)>,
) -> bool {
    forall|j: int|
        0 <= j < cands.len() ==> {
            &&& 0 <= (#[trigger] cands[j]).0 < offers.len()
            &&& offers[cands[j].0].seller != order.buyer
            &&& offers[cands[j].0].good == order.good
            &&& (cands[j].2 is None ==> cands[j].1 == 0)
        }
}

/// Whether two offer books list the same sellers and goods.
pub open spec fn same_sellers(a: Seq<MarketOffer>, b: Seq<MarketOffer>) -> bool {
    &&& a.len() == b.len()
    &&& forall|i: int| 0 <= i < a.len() ==> (#[trigger] a[i]).seller == b[i].seller && a[i].good == b[i].good
}

/// The fills of `st` stay first in `st2`, and every later one serves `order`.
pub open spec fn proc_fills_extend_for(st: ProcState, st2: ProcState, order: FirmProcurementOrder) -> bool {
    &&& st.fills.len() <= st2.fills.len()
    &&& forall|j: int| 0 <= j < st.fills.len() ==> #[trigger] st2.fills[j] == st.fills[j]
    &&& forall|j: int| st.fills.len() <= j < st2.fills.len() ==> proc_fill_serves(#[trigger] st2.fills[j], order)
}

proof fn lemma_proc_step_serves(
    routes: Map<u32, LogisticsRoute>,
    st: ProcState,
    need: int,
    exhausted: bool,
    order: FirmProcurementOrder,
    c: (int, int, Option<u32>),
)
    requires
        0 <= c.0 < st.offers.len(),
        st.offers[c.0].seller != order.buyer,
        st.offers[c.0].good == order.good,
        c.2 is None ==> c.1 == 0,
        need >= 0,
        proc_step(routes, st, need, exhausted, order, c) is Ok,
    ensures
        ({
            let (st2, need2, _) = proc_step(routes, st, need, exhausted, order, c)->Ok_0;
            &&& proc_fills_extend_for(st, st2, order)
            &&& same_sellers(st.offers, st2.offers)
            &&& 0 <= need2 <= need
            &&& crate::apportion::seq_sum(proc_fill_quantities(st2.fills)) == crate::apportion::seq_sum(
                proc_fill_quantities(st.fills),
            ) + (need - need2)
        }),
{
    broadcast use QuantityMilli::lemma_spec_from_view, Money::lemma_spec_from_view;

    let (st2, need2, _) = proc_step(routes, st, need, exhausted, order, c)->Ok_0;
    let offer = st.offers[c.0];
    let cash = st.ledgers[order.buyer@].cash;
    let price = offer.unit_price@ + c.1;
    if need == 0 || offer.quantity@ == 0 || cash <= 0 || !fits_i64(price) || price <= 0 {
        assert(proc_fill_quantities(st2.fills) =~= proc_fill_quantities(st.fills));
    } else {
        let affordable = min_int(cash * 1000 / price, u64::MAX as int);
        let limit = route_limit(st.capacity, c.2);
        let unconstrained = min_int(min_int(need, offer.quantity@ as int), affordable);
        let q = min_int(unconstrained, limit);
        assert(0 <= cash * 1000 / price) by (nonlinear_arith)
            requires
                cash > 0,
                price > 0,
        ;
        assert(0 <= q <= need);
        if q == 0 {
            assert(proc_fill_quantities(st2.fills) =~= proc_fill_quantities(st.fills));
        } else {
            let spend = price * q / 1000;
            let goods = tdiv(offer.unit_price@ * q, 1000);
            if c.2 is None {
                assert(offer.unit_price@ == price);
                assert(offer.unit_price@ * q >= 0) by (nonlinear_arith)
                    requires
                        offer.unit_price@ > 0,
                        q >= 0,
                ;
                assert(spend == goods);
            }
            assert(proc_fill_quantities(st2.fills).drop_last() =~= proc_fill_quantities(st.fills));
            let f = st2.fills.last();
            assert(f.quantity@ == q);
            assert(f.spend@ == spend);
            assert(f.goods_spend@ == goods);
            assert(f.freight_spend@ == spend - goods);
            assert(proc_fill_serves(f, order));
            assert forall|j: int| 0 <= j < st.fills.len() implies #[trigger] st2.fills[j] == st.fills[j] by {}
            assert forall|i: int| 0 <= i < st.offers.len() implies (#[trigger] st.offers[i]).seller
                == st2.offers[i].seller && st.offers[i].good == st2.offers[i].good by {
                if i == c.0 {
                }
            }
        }
    }
}

proof fn lemma_proc_fill_serves(
    routes: Map<u32, LogisticsRoute>,
    st: ProcState,
    need: int,
    exhausted: bool,
    order: FirmProcurementOrder,
    cands: Seq<(int, int, Option<u32>)>,
)
    requires
        proc_candidates_valid(st.offers, order, cands),
        need >= 0,
        proc_fill(routes, st, need, exhausted, order, cands) is Ok,
    ensures
        ({
            let (st2, need2, _) = proc_fill(routes, st, need, exhausted, order, cands)->Ok_0;
            &&& proc_fills_extend_for(st, st2, order)
            &&& 0 <= need2 <= need
            &&& crate::apportion::seq_sum(proc_fill_quantities(st2.fills)) == crate::apportion::seq_sum(
                proc_fill_quantities(st.fills),
            ) + (need - need2)
        }),
    decreases cands.len(),
{
    if cands.len() > 0 {
        assert(0 <= cands[0].0 < st.offers.len());
        lemma_proc_step_serves(routes, st, need, exhausted, order, cands[0]);
        let (st1, need1, ex1) = proc_step(routes, st, need, exhausted, order, cands[0])->Ok_0;
        let rest = cands.drop_first();
        assert forall|j: int| 0 <= j < rest.len() implies {
            &&& 0 <= (#[trigger] rest[j]).0 < st1.offers.len()
            &&& st1.offers[rest[j].0].seller != order.buyer
            &&& st1.offers[rest[j].0].good == order.good
            &&& (rest[j].2 is None ==> rest[j].1 == 0)
        } by {
            assert(rest[j] == cands[j + 1]);
            assert(st.offers[cands[j + 1].0].seller == st1.offers[cands[j + 1].0].seller);
        }
        lemma_proc_fill_serves(routes, st1, need1, ex1, order, rest);
        let st2 = proc_fill(routes, st, need, exhausted, order, cands)->Ok_0.0;
        assert forall|j: int| 0 <= j < st.fills.len() implies #[trigger] st2.fills[j] == st.fills[j] by {
            assert(st1.fills[j] == st.fills[j]);
        }
        assert forall|j: int| st.fills.len() <= j < st2.fills.len() implies proc_fill_serves(
            #[trigger] st2.fills[j],
            order,
        ) by {
            if j < st1.fills.len() {
                assert(st2.fills[j] == st1.fills[j]);
            }
        }
    }
}

proof fn lemma_proc_locals_valid(offers: Seq<MarketOffer>, order: FirmProcurementOrder, k: int)
    requires
        0 <= k <= offers.len(),
    ensures
        forall|j: int|
            0 <= j < proc_locals(offers, order, k).len() ==> 0 <= #[trigger] proc_locals(offers, order, k)[j] < k
                && proc_offer_usable(offers, order, proc_locals(offers, order, k)[j]),
    decreases k,
{
    if k > 0 {
        lemma_proc_locals_valid(offers, order, k - 1);
        let prev = proc_locals(offers, order, k - 1);
        let now = proc_locals(offers, order, k);
        assert forall|j: int| 0 <= j < now.len() implies 0 <= #[trigger] now[j] < k && proc_offer_usable(
            offers,
            order,
            now[j],
        ) by {
            if j < prev.len() {
                assert(now[j] == prev[j]);
            }
        }
    }
}

proof fn lemma_proc_imports_valid(offers: Seq<MarketOffer>, order: FirmProcurementOrder, table: DeliveryTable, k: int)
    requires
        0 <= k <= offers.len(),
        proc_imports(offers, order, table, k) is Ok,
    ensures
        forall|j: int|
            0 <= j < proc_imports(offers, order, table, k)->Ok_0.len() ==> 0 <= (
            #[trigger] proc_imports(offers, order, table, k)->Ok_0[j]).1 < k && proc_offer_usable(
                offers,
                order,
                proc_imports(offers, order, table, k)->Ok_0[j].1,
            ),
    decreases k,
{
    if k > 0 {
        lemma_proc_imports_valid(offers, order, table, k - 1);
    }
}

/// Every candidate of an order is a valid offer of another seller and of the ordered good.
proof fn lemma_proc_candidates_valid(offers: Seq<MarketOffer>, order: FirmProcurementOrder, table: DeliveryTable)
    requires
        proc_candidates(offers, order, table) is Ok,
    ensures
        proc_candidates_valid(offers, order, proc_candidates(offers, order, table)->Ok_0),
{
    let n = offers.len() as int;
    lemma_proc_locals_valid(offers, order, n);
    lemma_proc_imports_valid(offers, order, table, n);
    let locals = proc_locals(offers, order, n);
    let imports = proc_imports(offers, order, table, n)->Ok_0;
    let before = keyed_before(imports.map_values(|e: (int, int, int, u32)| import_key(offers, e)));
    lemma_keyed_before_strict(imports.map_values(|e: (int, int, int, u32)| import_key(offers, e)));
    lemma_rank_bijection(before, imports.len() as int);
    let cs = proc_candidates(offers, order, table)->Ok_0;
    assert forall|j: int| 0 <= j < cs.len() implies {
        &&& 0 <= (#[trigger] cs[j]).0 < offers.len()
        &&& offers[cs[j].0].seller != order.buyer
        &&& offers[cs[j].0].good == order.good
        &&& (cs[j].2 is None ==> cs[j].1 == 0)
    } by {
        if j < locals.len() {
            assert(cs[j].0 == locals[j]);
        } else {
            let r = j - locals.len();
            let i = index_at(before, imports.len() as int, r);
            assert(ordered_by(imports, before)[r] == imports[i]);
        }
    }
}

/// Settling one order accounts for all of it: the fills made for it come after those made
/// before, each goes to the ordering firm for its good from another firm, with a positive
/// quantity and a payment that is exactly goods price plus freight (no freight on a local
/// delivery); what they deliver plus what is recorded unmet is the quantity ordered.
pub proof fn lemma_proc_order_accounts(
    routes: Map<u32, LogisticsRoute>,
    st: ProcState,
    order: FirmProcurementOrder,
    table: DeliveryTable,
)
    requires
        proc_order(routes, st, order, table) is Ok,
    ensures
        ({
            let st2 = proc_order(routes, st, order, table)->Ok_0;
            let key = (order.buyer@, order.good@);
            let delivered = crate::apportion::seq_sum(proc_fill_quantities(st2.fills))
                - crate::apportion::seq_sum(proc_fill_quantities(st.fills));
            &&& proc_fills_extend_for(st, st2, order)
            &&& 0 <= delivered <= order.quantity@
            &&& delivered < order.quantity@ ==> st2.unmet.contains_key(key) && delivered + st2.unmet[key]@
                == order.quantity@
        }),
{
    broadcast use QuantityMilli::lemma_spec_from_view;

    lemma_proc_candidates_valid(st.offers, order, table);
    let cs = proc_candidates(st.offers, order, table)->Ok_0;
    lemma_proc_fill_serves(routes, st, order.quantity@ as int, false, order, cs);
}

impl World {
    /// Settles intermediate-input orders against the offer book. Each order buys first
    /// from local offers in book order, then imports over a listed direct route by
    /// delivered price (region and seller breaking ties), limited by what it still needs,
    /// what the offer holds, what the buyer's cash affords and the route's remaining
    /// capacity. The buyer pays, the supplier delivers from stock and is paid the goods
    /// price, the route's carrier the tariff. Offers and route capacity are drawn down in
    /// place; firm ledgers change only when the whole settlement succeeds. A failure
    /// leaves the world unchanged and the offers and capacity as drawn down before it.
    pub fn settle_procurement_orders(
        &mut self,
        orders: &[FirmProcurementOrder],
        offers: &mut Vec<MarketOffer>,
        route_capacity: &mut BTreeMap<u32, u64>,
        delivery: &BTreeMap<(u32, u32), (RouteId, Money)>,
    ) -> (r: Result<ProcurementSettlement, WorldError>)
        requires
            forall|k: int| 0 <= k < orders@.len() ==> old(self)@.firms.contains_key((#[trigger] orders@[k]).buyer@),
        ensures
            match procurement_result(old(self)@, orders@, old(offers)@, old(route_capacity)@, delivery@) {
                Err((e, os, cap)) => r == Err::<ProcurementSettlement, WorldError>(e) && final(offers)@ == os
                    && final(route_capacity)@ == cap && final(self)@ == old(self)@,
                Ok(st) => (r matches Ok(s) && s.fills@ == st.fills && s.unmet@ == st.unmet
                    && s.capacity_limited@ == st.capacity_limited && s.constrained_routes@ == st.constrained
                    && s.trade_prices@ == st.trade_prices && s.purchases@ == st.purchases) && final(offers)@
                    == st.offers && final(route_capacity)@ == st.capacity && settled_world(
                    old(self)@,
                    final(self)@,
                    st.ledgers,
                ),
            },
    {
        let ghost w0 = self@;
        let ghost offers0 = offers@;
        let mut cash: BTreeMap<u32, i64> = BTreeMap::new();
        let mut stock: BTreeMap<(u32, u32), u64> = BTreeMap::new();
        let mut fills: Vec<FirmProcurementFill> = Vec::new();
        let mut unmet: BTreeMap<(u32, u32), QuantityMilli> = BTreeMap::new();
        let mut limited: BTreeSet<(u32, u32)> = BTreeSet::new();
        let mut constrained: BTreeSet<u32> = BTreeSet::new();
        let mut trade_prices: BTreeMap<(u32, u32), Money> = BTreeMap::new();
        let mut purchases: BTreeMap<(u32, u32), (u64, i64)> = BTreeMap::new();
        proof {
            lemma_lazy_start(self.firms@);
            assert(orders@.skip(0) =~= orders@);
            assert(fills@ =~= Seq::<FirmProcurementFill>::empty());
            assert(unmet@ =~= Map::<(u32, u32), QuantityMilli>::empty());
            assert(limited@ =~= Set::<(u32, u32)>::empty());
            assert(constrained@ =~= Set::<u32>::empty());
            assert(trade_prices@ =~= Map::<(u32, u32), Money>::empty());
            assert(purchases@ =~= Map::<(u32, u32), (u64, i64)>::empty());
        }
        let mut i: usize = 0;
        while i < orders.len()
            invariant
                w0 == old(self)@,
                self@ == w0,
                offers0 == old(offers)@,
                forall|k: int| 0 <= k < orders@.len() ==> w0.firms.contains_key((#[trigger] orders@[k]).buyer@),
                offers@.len() == offers0.len(),
                forall|k: int| 0 <= k < offers0.len() ==> (#[trigger] offers@[k]).unit_price == offers0[k].unit_price,
                lazy_keys_known(self.firms@, cash@, stock@),
                i <= orders.len(),
                procurement_result(w0, orders@, offers0, old(route_capacity)@, delivery@) == proc_orders(
                    w0.logistics_routes,
                    exec_state(
                        self.firms@,
                        cash@,
                        stock@,
                        offers@,
                        route_capacity@,
                        fills@,
                        unmet@,
                        limited@,
                        constrained@,
                        trade_prices@,
                        purchases@,
                    ),
                    orders@.skip(i as int),
                    delivery@,
                ),
            decreases orders.len() - i,
        {
            let order = orders[i];
            proof {
                assert(orders@.skip(i as int)[0] == order);
                assert(orders@.skip(i as int).drop_first() =~= orders@.skip(i + 1));
            }
            let step = procure_order(
                &self.logistics_routes,
                &self.firms,
                &mut cash,
                &mut stock,
                offers,
                route_capacity,
                &mut fills,
                &mut unmet,
                &mut limited,
                &mut constrained,
                &mut trade_prices,
                &mut purchases,
                order,
                delivery,
            );
            match step {
                Err(e) => {
                    return Err(e);
                },
                Ok(()) => {},
            }
            i = i + 1;
        }
        proof {
            assert(orders@.skip(orders@.len() as int) =~= Seq::<FirmProcurementOrder>::empty());
        }
        let ghost ledgers = lazy_ledgers(self.firms@, cash@, stock@);
        let ghost f0 = self.firms@;
        commit_cash(&mut self.firms, &cash);
        let ghost f1 = self.firms@;
        commit_stock(&mut self.firms, &stock);
        proof {
            assert forall|id: u32| #[trigger] w0.firms.contains_key(id) implies same_identity(
                self@.firms[id],
                w0.firms[id],
            ) && ledger_of(self@.firms[id]) == ledgers[id] by {
                assert(lazy_stock(f1, stock@, id) =~= lazy_stock(f0, stock@, id));
            }
            assert(self@ =~= (WorldView { firms: self@.firms, ..w0 }));
        }
        Ok(
            ProcurementSettlement {
                fills,
                unmet,
                capacity_limited: limited,
                constrained_routes: constrained,
                trade_prices,
                purchases,
            },
        )
    }
}

} // verus!
