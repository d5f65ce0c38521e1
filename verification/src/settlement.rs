use vstd::prelude::*;
use std::collections::BTreeMap;

use crate::cohort::{wealth_debit, HouseholdCohort};
use crate::demand::{tier_index, tier_rank};
use crate::event::{DomainEvent, EventEnvelope};
use crate::ids::{CohortId, FirmId, GoodId, RouteId};
use crate::logistics::LogisticsRoute;
use crate::market::{fits_i64, MarketClearing, MarketFill, MarketOfferOutcome};
use crate::ordered::{
    is_pair_key_order, is_triple_key_order, pair_key_order, pair_keys_in_order, triple_key_order,
    triple_keys_in_order,
};
use crate::procurement::{
    cash_total, lemma_totals_after_update, stock_total,
    commit_cash, commit_stock, settled_world, cash_of, lazy_cash, lazy_keys_known, lazy_ledgers, lazy_stock, ledger_of, stock_of, stock_taken,
    with_cash, Ledger,
};
use crate::production::{held, Firm};
use crate::value::{BasisPoints, Money, QuantityMilli};
use crate::world::{World, WorldError, WorldView};

verus! {

broadcast use {
    vstd::std_specs::btree::group_btree_axioms,
    QuantityMilli::lemma_spec_from_view,
    QuantityMilli::lemma_from_own_view,
    Money::lemma_spec_from_view,
    Money::lemma_from_own_view,
    BasisPoints::lemma_spec_from_view,
    BasisPoints::lemma_from_own_view,
};

/// The message of a clearing whose outcomes do not add up in their seller's region.
pub open spec fn outcome_mismatch() -> &'static str {
    "offer outcomes must conserve quantity in the seller region"
}

/// What each seller sold of each good by the outcomes `os`: an unknown seller, an outcome
/// outside its seller's region or whose sold and unsold do not make up its offer is
/// refused, as is a total beyond `u64`.
pub open spec fn outcome_sales(w: WorldView, os: Seq<MarketOfferOutcome>) -> Result<Map<(u32, u32), u64>, WorldError>
    decreases os.len(),
{
    if os.len() == 0 {
        Ok(Map::empty())
    } else {
        match outcome_sales(w, os.drop_last()) {
            Err(e) => Err(e),
            Ok(m) => {
                let o = os.last();
                let k = (o.seller@, o.good@);
                let current = if m.contains_key(k) {
                    m[k] as int
                } else {
                    0
                };
                if !w.firms.contains_key(o.seller@) {
                    Err(WorldError::UnknownFirm(o.seller))
                } else if w.firms[o.seller@].spec_region() != o.region {
                    Err(WorldError::InvalidMarketClearing(outcome_mismatch()))
                } else if o.sold@ + o.unsold@ > u64::MAX {
                    Err(WorldError::ArithmeticOverflow("market offer outcome"))
                } else if o.offered@ != o.sold@ + o.unsold@ {
                    Err(WorldError::InvalidMarketClearing(outcome_mismatch()))
                } else if o.sold@ == 0 {
                    Ok(m)
                } else if current + o.sold@ > u64::MAX {
                    Err(WorldError::ArithmeticOverflow("market outcome sales"))
                } else {
                    Ok(m.insert(k, (current + o.sold@) as u64))
                }
            },
        }
    }
}

/// What each seller delivered of each good by the fills `fs`, refused beyond `u64`.
pub open spec fn fill_sales(fs: Seq<MarketFill>) -> Result<Map<(u32, u32), u64>, WorldError>
    decreases fs.len(),
{
    if fs.len() == 0 {
        Ok(Map::empty())
    } else {
        match fill_sales(fs.drop_last()) {
            Err(e) => Err(e),
            Ok(m) => {
                let f = fs.last();
                let k = (f.seller@, f.good@);
                let current = if m.contains_key(k) {
                    m[k] as int
                } else {
                    0
                };
                if current + f.quantity@ > u64::MAX {
                    Err(WorldError::ArithmeticOverflow("market fill sales"))
                } else {
                    Ok(m.insert(k, (current + f.quantity@) as u64))
                }
            },
        }
    }
}

/// Why a clearing cannot be settled before anything moves: its outcomes are refused, its
/// fills' totals overflow, or what the outcomes say was sold is not what the fills
/// delivered.
pub open spec fn clearing_error(w: WorldView, c: MarketClearing) -> Option<WorldError> {
    match outcome_sales(w, c.offer_outcomes@) {
        Err(e) => Some(e),
        Ok(sold) => match fill_sales(c.fills@) {
            Err(e) => Some(e),
            Ok(delivered) => if sold != delivered {
                Some(WorldError::InvalidMarketClearing("offer outcomes must match settled fills"))
            } else {
                None
            },
        },
    }
}

/// The cohorts and firm ledgers after one fill: the buyer pays the delivered price out of
/// its wealth, the seller delivers from stock and is paid the goods price, and an
/// import's route carrier is paid the freight. An unknown buyer, seller or carrier, a
/// buyer short of wealth, a seller short of stock, an import route without a carrier or
/// a cash overflow fails.
pub open spec fn settle_fill(
    cohorts: Map<u32, HouseholdCohort>,
    ledgers: Map<u32, Ledger>,
    routes: Map<u32, LogisticsRoute>,
    f: MarketFill,
) -> Result<(Map<u32, HouseholdCohort>, Map<u32, Ledger>), WorldError> {
    if !cohorts.contains_key(f.buyer@) {
        Err(WorldError::UnknownCohort(f.buyer))
    } else {
        match wealth_debit(cohorts[f.buyer@], f.spend) {
            Err(e) => Err(e),
            Ok(paid) => {
                let cs = cohorts.insert(f.buyer@, paid);
                let s = f.seller@;
                if !ledgers.contains_key(s) {
                    Err(WorldError::UnknownFirm(f.seller))
                } else if held(ledgers[s].stock, f.good@) < f.quantity@ {
                    Err(WorldError::InsufficientFirmInventory { firm: f.seller, good: f.good })
                } else {
                    let l1 = ledgers.insert(s, stock_taken(ledgers[s], f.good@, f.quantity@ as int));
                    if !fits_i64(l1[s].cash + f.goods_spend@) {
                        Err(WorldError::ArithmeticOverflow("firm cash"))
                    } else {
                        let l2 = l1.insert(s, with_cash(l1[s], l1[s].cash + f.goods_spend@));
                        match f.route {
                            None => Ok((cs, l2)),
                            Some(r) => if !routes.contains_key(r@) || routes[r@].spec_carrier() is None {
                                Err(WorldError::InvalidLogistics("market import route requires a carrier"))
                            } else {
                                let carrier = routes[r@].spec_carrier()->0;
                                if !l2.contains_key(carrier@) {
                                    Err(WorldError::UnknownFirm(carrier))
                                } else if !fits_i64(l2[carrier@].cash + f.freight_spend@) {
                                    Err(WorldError::ArithmeticOverflow("firm cash"))
                                } else {
                                    Ok(
                                        (
                                            cs,
                                            l2.insert(
                                                carrier@,
                                                with_cash(l2[carrier@], l2[carrier@].cash + f.freight_spend@),
                                            ),
                                        ),
                                    )
                                }
                            },
                        }
                    }
                }
            },
        }
    }
}

/// The fills `fs` settled in turn, stopping at the first failure.
pub open spec fn settle_fills(
    cohorts: Map<u32, HouseholdCohort>,
    ledgers: Map<u32, Ledger>,
    routes: Map<u32, LogisticsRoute>,
    fs: Seq<MarketFill>,
) -> Result<(Map<u32, HouseholdCohort>, Map<u32, Ledger>), WorldError>
    decreases fs.len(),
{
    if fs.len() == 0 {
        Ok((cohorts, ledgers))
    } else {
        match settle_fills(cohorts, ledgers, routes, fs.drop_last()) {
            Err(e) => Err(e),
            Ok((cs, ls)) => settle_fill(cs, ls, routes, fs.last()),
        }
    }
}

/// The key of a fill's consumption: its buyer, good and need tier.
pub open spec fn consumption_key(f: MarketFill) -> (u32, u32, u32) {
    (f.buyer@, f.good@, tier_rank(f.tier) as u32)
}

/// What each cohort consumed of each good at each tier by the fills `fs`, refused beyond
/// `u64`.
pub open spec fn consumption(fs: Seq<MarketFill>) -> Result<Map<(u32, u32, u32), u64>, WorldError>
    decreases fs.len(),
{
    if fs.len() == 0 {
        Ok(Map::empty())
    } else {
        match consumption(fs.drop_last()) {
            Err(e) => Err(e),
            Ok(m) => {
                let f = fs.last();
                let k = consumption_key(f);
                let current = if m.contains_key(k) {
                    m[k] as int
                } else {
                    0
                };
                if current + f.quantity@ > u64::MAX {
                    Err(WorldError::ArithmeticOverflow("monthly consumption"))
                } else {
                    Ok(m.insert(k, (current + f.quantity@) as u64))
                }
            },
        }
    }
}

/// The weight of a need tier of the given rank: survival 4, participation 3,
/// development 2, discretionary 1.
pub open spec fn tier_weight(rank: u32) -> int {
    4 - rank
}

/// Each cohort's tier-weighted desired and unmet quantities, with the entries `ks` of `m`
/// added (to the unmet quantity too where `unmet`).
pub open spec fn weigh(
    acc: Map<u32, (int, int)>,
    m: Map<(u32, u32, u32), u64>,
    ks: Seq<(u32, u32, u32)>,
    unmet: bool,
) -> Map<u32, (int, int)>
    decreases ks.len(),
{
    if ks.len() == 0 {
        acc
    } else {
        let before = weigh(acc, m, ks.drop_last(), unmet);
        let k = ks.last();
        let v = m[k] * tier_weight(k.2);
        let (d, u) = if before.contains_key(k.0) {
            before[k.0]
        } else {
            (0, 0)
        };
        before.insert(
            k.0,
            (
                d + v,
                if unmet {
                    u + v
                } else {
                    u
                },
            ),
        )
    }
}

/// The deprivation pressure of weighted desired and unmet quantities: the unmet share
/// in basis points, none where nothing was desired.
pub open spec fn pressure_of(d: int, u: int) -> int {
    if d == 0 {
        0
    } else {
        u * 10_000 / d
    }
}

/// Each cohort's deprivation pressure after a month: weighted by tier, the share of what
/// it desired (what it consumed plus what stayed unmet) that stayed unmet.
pub open spec fn deprivation(consumed: Map<(u32, u32, u32), u64>, unmet: Map<(u32, u32, u32), QuantityMilli>) -> Map<
    u32,
    BasisPoints,
> {
    let u = unmet.map_values(|q: QuantityMilli| q@);
    let weights = weigh(weigh(Map::empty(), consumed, triple_key_order(consumed), false), u, triple_key_order(u), true);
    Map::new(
        |c: u32| weights.contains_key(c),
        |c: u32| BasisPoints::spec_from(pressure_of(weights[c].0, weights[c].1) as u16),
    )
}

/// Each seller's month of offer outcomes, with the outcomes `os` appended in turn.
pub open spec fn outcome_history(h: Map<u32, Seq<MarketOfferOutcome>>, os: Seq<MarketOfferOutcome>) -> Map<
    u32,
    Seq<MarketOfferOutcome>,
>
    decreases os.len(),
{
    if os.len() == 0 {
        h
    } else {
        let before = outcome_history(h, os.drop_last());
        let o = os.last();
        let current = if before.contains_key(o.seller@) {
            before[o.seller@]
        } else {
            seq![]
        };
        before.insert(o.seller@, current.push(o))
    }
}

/// The events of the fills `fs`: a trade for each, and the freight paid to the carrier
/// for each import.
pub open spec fn trade_events(
    events: Seq<EventEnvelope>,
    w: WorldView,
    fs: Seq<MarketFill>,
) -> Seq<EventEnvelope>
    decreases fs.len(),
{
    if fs.len() == 0 {
        events
    } else {
        let before = trade_events(events, w, fs.drop_last());
        let f = fs.last();
        let traded = before.push(
            EventEnvelope {
                date: w.date,
                event: DomainEvent::MarketTrade {
                    buyer: f.buyer,
                    seller: f.seller,
                    good: f.good,
                    quantity: f.quantity,
                    spend: f.spend,
                },
            },
        );
        match f.route {
            None => traded,
            Some(r) => traded.push(
                EventEnvelope {
                    date: w.date,
                    event: DomainEvent::MarketFreightPaid {
                        buyer: f.buyer,
                        seller: f.seller,
                        carrier: w.logistics_routes[r@].spec_carrier()->0,
                        route: r,
                        amount: f.freight_spend,
                    },
                },
            ),
        }
    }
}

/// The outcome of settling a cleared market: an error (the world unchanged), or the world
/// with the buyers' wealth, the firms' cash and stock as settled, the month's consumption,
/// unmet demand and deprivation pressure recorded, each seller's outcomes appended to its
/// history and the trades recorded as events.
pub open spec fn settlement_result(w: WorldView, c: MarketClearing) -> Result<(WorldView, Map<u32, Ledger>), WorldError> {
    match clearing_error(w, c) {
        Some(e) => Err(e),
        None => match settle_fills(w.cohorts, w.firms.map_values(|f: Firm| ledger_of(f)), w.logistics_routes, c.fills@) {
            Err(e) => Err(e),
            Ok((cohorts, ledgers)) => match consumption(c.fills@) {
                Err(e) => Err(e),
                Ok(consumed) => Ok(
                    (
                        WorldView {
                            cohorts,
                            monthly_consumption: consumed.map_values(|q: u64| QuantityMilli::spec_from(q)),
                            unmet_demand: c.unmet@,
                            deprivation_pressure: deprivation(consumed, c.unmet@),
                            monthly_firm_market_outcomes: outcome_history(
                                w.monthly_firm_market_outcomes,
                                c.offer_outcomes@,
                            ),
                            events: trade_events(w.events, w, c.fills@),
                            ..w
                        },
                        ledgers,
                    ),
                ),
            },
        },
    }
}

proof fn lemma_outcome_sales_err_sticks(w: WorldView, os: Seq<MarketOfferOutcome>, k: int)
    requires
        0 <= k <= os.len(),
        outcome_sales(w, os.take(k)) is Err,
    ensures
        outcome_sales(w, os) == outcome_sales(w, os.take(k)),
    decreases os.len() - k,
{
    if k < os.len() {
        assert(os.take(k + 1).drop_last() =~= os.take(k));
        lemma_outcome_sales_err_sticks(w, os, k + 1);
    } else {
        assert(os.take(k) =~= os);
    }
}

proof fn lemma_fill_sales_err_sticks(fs: Seq<MarketFill>, k: int)
    requires
        0 <= k <= fs.len(),
        fill_sales(fs.take(k)) is Err,
    ensures
        fill_sales(fs) == fill_sales(fs.take(k)),
    decreases fs.len() - k,
{
    if k < fs.len() {
        assert(fs.take(k + 1).drop_last() =~= fs.take(k));
        lemma_fill_sales_err_sticks(fs, k + 1);
    } else {
        assert(fs.take(k) =~= fs);
    }
}

proof fn lemma_consumption_err_sticks(fs: Seq<MarketFill>, k: int)
    requires
        0 <= k <= fs.len(),
        consumption(fs.take(k)) is Err,
    ensures
        consumption(fs) == consumption(fs.take(k)),
    decreases fs.len() - k,
{
    if k < fs.len() {
        assert(fs.take(k + 1).drop_last() =~= fs.take(k));
        lemma_consumption_err_sticks(fs, k + 1);
    } else {
        assert(fs.take(k) =~= fs);
    }
}

proof fn lemma_settle_fills_err_sticks(
    cohorts: Map<u32, HouseholdCohort>,
    ledgers: Map<u32, Ledger>,
    routes: Map<u32, LogisticsRoute>,
    fs: Seq<MarketFill>,
    k: int,
)
    requires
        0 <= k <= fs.len(),
        settle_fills(cohorts, ledgers, routes, fs.take(k)) is Err,
    ensures
        settle_fills(cohorts, ledgers, routes, fs) == settle_fills(cohorts, ledgers, routes, fs.take(k)),
    decreases fs.len() - k,
{
    if k < fs.len() {
        assert(fs.take(k + 1).drop_last() =~= fs.take(k));
        lemma_settle_fills_err_sticks(cohorts, ledgers, routes, fs, k + 1);
    } else {
        assert(fs.take(k) =~= fs);
    }
}

impl World {
    /// What each seller sold of each good by a clearing's outcomes (see `outcome_sales`).
    fn outcome_sales_of(&self, os: &Vec<MarketOfferOutcome>) -> (r: Result<BTreeMap<(u32, u32), u64>, WorldError>)
        ensures
            match outcome_sales(self@, os@) {
                Err(e) => r == Err::<BTreeMap<(u32, u32), u64>, WorldError>(e),
                Ok(m) => r matches Ok(x) && x@ == m,
            },
    {
        let mut sold: BTreeMap<(u32, u32), u64> = BTreeMap::new();
        let mut i: usize = 0;
        while i < os.len()
            invariant
                i <= os.len(),
                outcome_sales(self@, os@.take(i as int)) == Ok::<Map<(u32, u32), u64>, WorldError>(sold@),
            decreases os.len() - i,
        {
            let o = os[i];
            proof {
                assert(os@.take(i + 1).drop_last() =~= os@.take(i as int));
                assert(os@.take(i + 1).last() == o);
            }
            let firm = match self.firms.get(&o.seller.get()) {
                Some(f) => f,
                None => {
                    proof {
                        lemma_outcome_sales_err_sticks(self@, os@, i + 1);
                    }
                    return Err(WorldError::UnknownFirm(o.seller));
                },
            };
            if firm.region() != o.region {
                proof {
                    lemma_outcome_sales_err_sticks(self@, os@, i + 1);
                }
                return Err(WorldError::InvalidMarketClearing("offer outcomes must conserve quantity in the seller region"));
            }
            if o.sold.get() > u64::MAX - o.unsold.get() {
                proof {
                    lemma_outcome_sales_err_sticks(self@, os@, i + 1);
                }
                return Err(WorldError::ArithmeticOverflow("market offer outcome"));
            }
            if o.offered.get() != o.sold.get() + o.unsold.get() {
                proof {
                    lemma_outcome_sales_err_sticks(self@, os@, i + 1);
                }
                return Err(WorldError::InvalidMarketClearing("offer outcomes must conserve quantity in the seller region"));
            }
            if o.sold.get() > 0 {
                let k = (o.seller.get(), o.good.get());
                let current: u64 = match sold.get(&k) {
                    Some(v) => *v,
                    None => 0,
                };
                if current > u64::MAX - o.sold.get() {
                    proof {
                        lemma_outcome_sales_err_sticks(self@, os@, i + 1);
                    }
                    return Err(WorldError::ArithmeticOverflow("market outcome sales"));
                }
                sold.insert(k, current + o.sold.get());
            }
            i = i + 1;
        }
        proof {
            assert(os@.take(os@.len() as int) =~= os@);
        }
        Ok(sold)
    }
}

/// What each seller delivered of each good by the fills (see `fill_sales`).
fn fill_sales_of(fs: &Vec<MarketFill>) -> (r: Result<BTreeMap<(u32, u32), u64>, WorldError>)
    ensures
        match fill_sales(fs@) {
            Err(e) => r == Err::<BTreeMap<(u32, u32), u64>, WorldError>(e),
            Ok(m) => r matches Ok(x) && x@ == m,
        },
{
    let mut delivered: BTreeMap<(u32, u32), u64> = BTreeMap::new();
    let mut i: usize = 0;
    while i < fs.len()
        invariant
            i <= fs.len(),
            fill_sales(fs@.take(i as int)) == Ok::<Map<(u32, u32), u64>, WorldError>(delivered@),
        decreases fs.len() - i,
    {
        let f = fs[i];
        proof {
            assert(fs@.take(i + 1).drop_last() =~= fs@.take(i as int));
            assert(fs@.take(i + 1).last() == f);
        }
        let k = (f.seller.get(), f.good.get());
        let current: u64 = match delivered.get(&k) {
            Some(v) => *v,
            None => 0,
        };
        if current > u64::MAX - f.quantity.get() {
            proof {
                lemma_fill_sales_err_sticks(fs@, i + 1);
            }
            return Err(WorldError::ArithmeticOverflow("market fill sales"));
        }
        delivered.insert(k, current + f.quantity.get());
        i = i + 1;
    }
    proof {
        assert(fs@.take(fs@.len() as int) =~= fs@);
    }
    Ok(delivered)
}

/// Whether two pair-keyed maps are equal.
fn same_sales(a: &BTreeMap<(u32, u32), u64>, b: &BTreeMap<(u32, u32), u64>) -> (r: bool)
    ensures
        r == (a@ == b@),
{
    let ka = pair_keys_in_order(a);
    let kb = pair_keys_in_order(b);
    let mut i: usize = 0;
    while i < ka.len()
        invariant
            is_pair_key_order(a@, ka@),
            forall|j: int| 0 <= j < ka@.len() ==> a@.contains_key(#[trigger] ka@[j]),
            i <= ka.len(),
            forall|j: int| 0 <= j < i ==> b@.contains_key(#[trigger] ka@[j]) && b@[ka@[j]] == a@[ka@[j]],
        decreases ka.len() - i,
    {
        let k = ka[i];
        match b.get(&k) {
            Some(v) => {
                if *v != *a.get(&k).unwrap() {
                    return false;
                }
            },
            None => {
                return false;
            },
        }
        i = i + 1;
    }
    let mut j: usize = 0;
    while j < kb.len()
        invariant
            is_pair_key_order(b@, kb@),
            forall|t: int| 0 <= t < kb@.len() ==> b@.contains_key(#[trigger] kb@[t]),
            j <= kb.len(),
            forall|t: int| 0 <= t < j ==> a@.contains_key(#[trigger] kb@[t]),
        decreases kb.len() - j,
    {
        if !a.contains_key(&kb[j]) {
            return false;
        }
        j = j + 1;
    }
    proof {
        assert forall|k: (u32, u32)| #[trigger] a@.contains_key(k) implies b@.contains_key(k) && b@[k] == a@[k] by {
            assert(ka@.to_set().contains(k));
            let t = choose|t: int| 0 <= t < ka@.len() && ka@[t] == k;
        }
        assert forall|k: (u32, u32)| #[trigger] b@.contains_key(k) implies a@.contains_key(k) by {
            assert(kb@.to_set().contains(k));
            let t = choose|t: int| 0 <= t < kb@.len() && kb@[t] == k;
        }
        assert(a@ =~= b@);
    }
    true
}

/// Settles one fill (see `settle_fill`) on the cohorts and on the recorded changes of the
/// firms' cash and stock.
#[verifier::rlimit(40)]
fn apply_market_fill(
    firms: &BTreeMap<u32, Firm>,
    routes: &BTreeMap<u32, LogisticsRoute>,
    cohorts: &mut BTreeMap<u32, HouseholdCohort>,
    cash: &mut BTreeMap<u32, i64>,
    stock: &mut BTreeMap<(u32, u32), u64>,
    f: MarketFill,
) -> (r: Result<(), WorldError>)
    requires
        lazy_keys_known(firms@, old(cash)@, old(stock)@),
    ensures
        lazy_keys_known(firms@, final(cash)@, final(stock)@),
        match settle_fill(old(cohorts)@, lazy_ledgers(firms@, old(cash)@, old(stock)@), routes@, f) {
            Err(e) => r == Err::<(), WorldError>(e),
            Ok((cs, ls)) => r is Ok && final(cohorts)@ == cs && lazy_ledgers(firms@, final(cash)@, final(stock)@)
                == ls,
        },
{
    let ghost l0 = lazy_ledgers(firms@, cash@, stock@);
    let mut buyer = match cohorts.get(&f.buyer.get()) {
        Some(c) => *c,
        None => {
            return Err(WorldError::UnknownCohort(f.buyer));
        },
    };
    match buyer.debit_wealth(f.spend) {
        Ok(()) => {},
        Err(e) => {
            return Err(e);
        },
    }
    cohorts.insert(f.buyer.get(), buyer);
    let seller = f.seller;
    let good = f.good;
    let q: u64 = f.quantity.get();
    if !firms.contains_key(&seller.get()) {
        return Err(WorldError::UnknownFirm(seller));
    }
    let seller_held = stock_of(firms, stock, seller.get(), good.get());
    if seller_held < q {
        return Err(WorldError::InsufficientFirmInventory { firm: seller, good });
    }
    proof {
        crate::procurement::lemma_lazy_stock_set(firms@, cash@, stock@, seller@, good@, (seller_held - q) as u64);
        assert(stock_taken(l0[seller@], good@, q as int).stock =~= if seller_held - q == 0 {
            l0[seller@].stock.remove(good@)
        } else {
            l0[seller@].stock.insert(good@, (seller_held - q) as u64)
        });
    }
    stock.insert((seller.get(), good.get()), seller_held - q);
    let ghost l1 = lazy_ledgers(firms@, cash@, stock@);
    assert(l1 == l0.insert(seller@, stock_taken(l0[seller@], good@, q as int)));
    let seller_cash = cash_of(firms, cash, seller.get());
    let paid = match seller_cash.checked_add(f.goods_spend.minor_units()) {
        Some(v) => v,
        None => {
            return Err(WorldError::ArithmeticOverflow("firm cash"));
        },
    };
    proof {
        crate::procurement::lemma_lazy_cash_set(firms@, cash@, stock@, seller@, paid);
    }
    cash.insert(seller.get(), paid);
    let ghost l2 = lazy_ledgers(firms@, cash@, stock@);
    assert(l2 == l1.insert(seller@, with_cash(l1[seller@], l1[seller@].cash + f.goods_spend@)));
    match f.route {
        None => Ok(()),
        Some(r) => {
            let carrier = match routes.get(&r.get()) {
                Some(definition) => match definition.carrier() {
                    Some(c) => c,
                    None => {
                        return Err(WorldError::InvalidLogistics("market import route requires a carrier"));
                    },
                },
                None => {
                    return Err(WorldError::InvalidLogistics("market import route requires a carrier"));
                },
            };
            if !firms.contains_key(&carrier.get()) {
                return Err(WorldError::UnknownFirm(carrier));
            }
            let carrier_cash = cash_of(firms, cash, carrier.get());
            let earned = match carrier_cash.checked_add(f.freight_spend.minor_units()) {
                Some(v) => v,
                None => {
                    return Err(WorldError::ArithmeticOverflow("firm cash"));
                },
            };
            proof {
                crate::procurement::lemma_lazy_cash_set(firms@, cash@, stock@, carrier@, earned);
            }
            cash.insert(carrier.get(), earned);
            Ok(())
        },
    }
}

/// What each cohort consumed of each good at each tier (see `consumption`).
fn consumption_of(fs: &Vec<MarketFill>) -> (r: Result<BTreeMap<(u32, u32, u32), u64>, WorldError>)
    ensures
        match consumption(fs@) {
            Err(e) => r == Err::<BTreeMap<(u32, u32, u32), u64>, WorldError>(e),
            Ok(m) => r matches Ok(x) && x@ == m && m.dom().len() <= fs@.len() && forall|k: (u32, u32, u32)|
                #[trigger] m.contains_key(k) ==> k.2 <= 3,
        },
{
    let mut consumed: BTreeMap<(u32, u32, u32), u64> = BTreeMap::new();
    let mut i: usize = 0;
    while i < fs.len()
        invariant
            i <= fs.len(),
            consumption(fs@.take(i as int)) == Ok::<Map<(u32, u32, u32), u64>, WorldError>(consumed@),
            consumed@.dom().len() <= i,
            forall|k: (u32, u32, u32)| #[trigger] consumed@.contains_key(k) ==> k.2 <= 3,
        decreases fs.len() - i,
    {
        let f = fs[i];
        proof {
            assert(fs@.take(i + 1).drop_last() =~= fs@.take(i as int));
            assert(fs@.take(i + 1).last() == f);
        }
        let k = (f.buyer.get(), f.good.get(), tier_index(f.tier) as u32);
        let current: u64 = match consumed.get(&k) {
            Some(v) => *v,
            None => 0,
        };
        if current > u64::MAX - f.quantity.get() {
            proof {
                lemma_consumption_err_sticks(fs@, i + 1);
            }
            return Err(WorldError::ArithmeticOverflow("monthly consumption"));
        }
        consumed.insert(k, current + f.quantity.get());
        i = i + 1;
    }
    proof {
        assert(fs@.take(fs@.len() as int) =~= fs@);
    }
    Ok(consumed)
}

/// Weighted quantities stay in order: nothing negative, unmet within desired, and
/// desired within a bound for the entries added so far.
pub open spec fn weights_bounded(acc: Map<u32, (int, int)>, bound: int) -> bool {
    forall|c: u32|
        #[trigger] acc.contains_key(c) ==> 0 <= acc[c].1 <= acc[c].0 <= bound
}

/// Adds the entries `ks` of `m` to the weighted quantities (see `weigh`).
fn weigh_into(
    acc: &mut BTreeMap<u32, (u128, u128)>,
    m: &BTreeMap<(u32, u32, u32), u64>,
    ks: &Vec<(u32, u32, u32)>,
    unmet: bool,
    base: u128,
)
    requires
        forall|j: int| 0 <= j < ks@.len() ==> m@.contains_key(#[trigger] ks@[j]) && ks@[j].2 <= 3,
        ks@.len() <= 0x8000_0000_0000,
        base <= 0x2_0000_0000_0000_0000_0000_0000_0000,
        weights_bounded(old(acc)@.map_values(|p: (u128, u128)| (p.0 as int, p.1 as int)), base as int),
    ensures
        final(acc)@.map_values(|p: (u128, u128)| (p.0 as int, p.1 as int)) == weigh(
            old(acc)@.map_values(|p: (u128, u128)| (p.0 as int, p.1 as int)),
            m@,
            ks@,
            unmet,
        ),
        weights_bounded(
            final(acc)@.map_values(|p: (u128, u128)| (p.0 as int, p.1 as int)),
            base + ks@.len() * 0x4_0000_0000_0000_0000,
        ),
{
    let ghost a0 = acc@.map_values(|p: (u128, u128)| (p.0 as int, p.1 as int));
    let mut i: usize = 0;
    while i < ks.len()
        invariant
            forall|j: int| 0 <= j < ks@.len() ==> m@.contains_key(#[trigger] ks@[j]) && ks@[j].2 <= 3,
            ks@.len() <= 0x8000_0000_0000,
            base <= 0x2_0000_0000_0000_0000_0000_0000_0000,
            i <= ks.len(),
            acc@.map_values(|p: (u128, u128)| (p.0 as int, p.1 as int)) == weigh(a0, m@, ks@.take(i as int), unmet),
            weights_bounded(acc@.map_values(|p: (u128, u128)| (p.0 as int, p.1 as int)), base + i * 0x4_0000_0000_0000_0000),
        decreases ks.len() - i,
    {
        let k = ks[i];
        proof {
            assert(m@.contains_key(ks@[i as int]));
        }
        let q: u64 = *m.get(&k).unwrap();
        proof {
            let qq = q as int;
            let ww = 4 - k.2;
            assert(0 <= qq * ww <= 0xffff_ffff_ffff_ffff * 4) by (nonlinear_arith)
                requires
                    0 <= qq <= 0xffff_ffff_ffff_ffff,
                    1 <= ww <= 4,
            ;
        }
        let v: u128 = q as u128 * (4 - k.2) as u128;
        let ghost bound = base + i * 0x4_0000_0000_0000_0000;
        let ghost cur = acc@.map_values(|p: (u128, u128)| (p.0 as int, p.1 as int));
        let (d, u): (u128, u128) = match acc.get(&k.0) {
            Some(p) => *p,
            None => (0, 0),
        };
        proof {
            assert(ks@.take(i + 1).drop_last() =~= ks@.take(i as int));
            assert(ks@.take(i + 1).last() == k);
            assert(v <= 0x4_0000_0000_0000_0000);
            assert(i * 0x4_0000_0000_0000_0000 <= 0x8000_0000_0000 * 0x4_0000_0000_0000_0000);
            if acc@.contains_key(k.0) {
                assert(cur.contains_key(k.0));
                assert(cur[k.0] == (d as int, u as int));
            }
            assert(0 <= u <= d <= bound);
        }
        let nu: u128 = if unmet {
            u + v
        } else {
            u
        };
        let ghost before = acc@.map_values(|p: (u128, u128)| (p.0 as int, p.1 as int));
        acc.insert(k.0, (d + v, nu));
        proof {
            assert(acc@.map_values(|p: (u128, u128)| (p.0 as int, p.1 as int)) =~= before.insert(
                k.0,
                (d + v, nu as int),
            ));
            let now = acc@.map_values(|p: (u128, u128)| (p.0 as int, p.1 as int));
            assert forall|c: u32| #[trigger] now.contains_key(c) implies 0 <= now[c].1 <= now[c].0 <= base + (i + 1)
                * 0x4_0000_0000_0000_0000 by {
                if c != k.0 {
                    assert(before.contains_key(c));
                }
            }
        }
        i = i + 1;
    }
    proof {
        assert(ks@.take(ks@.len() as int) =~= ks@);
    }
}

/// Each cohort's deprivation pressure (see `deprivation`).
fn deprivation_of(
    consumed: &BTreeMap<(u32, u32, u32), u64>,
    unmet: &BTreeMap<(u32, u32, u32), QuantityMilli>,
) -> (r: BTreeMap<u32, BasisPoints>)
    requires
        forall|k: (u32, u32, u32)| #[trigger] consumed@.contains_key(k) ==> k.2 <= 3,
        forall|k: (u32, u32, u32)| #[trigger] unmet@.contains_key(k) ==> k.2 <= 3,
        consumed@.dom().len() <= 0x8000_0000_0000,
        unmet@.dom().len() <= 0x8000_0000_0000,
    ensures
        r@ == deprivation(consumed@, unmet@),
{
    let mut plain: BTreeMap<(u32, u32, u32), u64> = BTreeMap::new();
    let uk = triple_keys_in_order(unmet);
    proof {
        crate::ordered::lemma_triples_no_duplicates(uk@);
    }
    let mut i: usize = 0;
    while i < uk.len()
        invariant
            is_triple_key_order(unmet@, uk@),
            forall|j: int| 0 <= j < uk@.len() ==> unmet@.contains_key(#[trigger] uk@[j]),
            i <= uk.len(),
            uk@.no_duplicates(),
            plain@ == unmet@.map_values(|q: QuantityMilli| q@).restrict(uk@.take(i as int).to_set()),
        decreases uk.len() - i,
    {
        let k = uk[i];
        let ghost before = plain@;
        plain.insert(k, unmet.get(&k).unwrap().get());
        proof {
            assert(uk@.take(i + 1) =~= uk@.take(i as int).push(k));
            uk@.take(i as int).lemma_push_to_set_commute(k);
            assert(plain@ =~= unmet@.map_values(|q: QuantityMilli| q@).restrict(uk@.take(i + 1).to_set()));
        }
        i = i + 1;
    }
    proof {
        assert(uk@.take(uk@.len() as int) =~= uk@);
        assert(plain@ =~= unmet@.map_values(|q: QuantityMilli| q@));
        assert(plain@.dom() =~= unmet@.dom());
        crate::ordered::lemma_triple_key_order_same_dom(unmet@, plain@);
    }
    let ck = triple_keys_in_order(consumed);
    let pk = triple_keys_in_order(&plain);
    let mut acc: BTreeMap<u32, (u128, u128)> = BTreeMap::new();
    proof {
        assert(acc@.map_values(|p: (u128, u128)| (p.0 as int, p.1 as int)) =~= Map::<u32, (int, int)>::empty());
        assert(ck@.len() <= 0x8000_0000_0000);
        assert(pk@.len() <= 0x8000_0000_0000) by {
            assert(plain@.dom() =~= unmet@.dom());
        }
    }
    weigh_into(&mut acc, consumed, &ck, false, 0);
    weigh_into(&mut acc, &plain, &pk, true, (ck.len() as u128) * 0x4_0000_0000_0000_0000);
    let ghost weights = acc@.map_values(|p: (u128, u128)| (p.0 as int, p.1 as int));
    let ids = crate::ordered::keys_in_order(&acc);
    let mut out: BTreeMap<u32, BasisPoints> = BTreeMap::new();
    let mut j: usize = 0;
    while j < ids.len()
        invariant
            weights == acc@.map_values(|p: (u128, u128)| (p.0 as int, p.1 as int)),
            weights_bounded(weights, 0x4_0000_0000_0000_0000_0000_0000_0000),
            forall|t: int| 0 <= t < ids@.len() ==> acc@.contains_key(#[trigger] ids@[t]),
            crate::ordered::is_key_order(acc@, ids@),
            j <= ids.len(),
            out@ == Map::new(
                |c: u32| ids@.take(j as int).to_set().contains(c),
                |c: u32| BasisPoints::spec_from(pressure_of(weights[c].0, weights[c].1) as u16),
            ),
        decreases ids.len() - j,
    {
        let c = ids[j];
        proof {
            assert(acc@.contains_key(ids@[j as int]));
        }
        let (d, u) = *acc.get(&c).unwrap();
        proof {
            assert(weights.contains_key(c));
            assert(weights[c] == (d as int, u as int));
            assert(0 <= u <= d <= 0x4_0000_0000_0000_0000_0000_0000_0000);
        }
        let bps: u128 = if d == 0 {
            0
        } else {
            proof {
                assert(weights[c] == (d as int, u as int));
                let dd = d as int;
                let uu = u as int;
                assert(uu * 10_000 / dd <= 10_000) by (nonlinear_arith)
                    requires
                        0 <= uu <= dd,
                        dd > 0,
                ;
                assert(uu * 10_000 <= 0x4_0000_0000_0000_0000_0000_0000_0000 * 10_000) by (nonlinear_arith)
                    requires
                        0 <= uu <= 0x4_0000_0000_0000_0000_0000_0000_0000,
                ;
            }
            u * 10_000 / d
        };
        proof {
            assert(weights[c] == (d as int, u as int));
        }
        let value = BasisPoints::from_bounded(bps as u16);
        let ghost before = out@;
        out.insert(c, value);
        proof {
            assert(ids@.take(j + 1) =~= ids@.take(j as int).push(c));
            ids@.take(j as int).lemma_push_to_set_commute(c);
            assert(out@ =~= Map::new(
                |x: u32| ids@.take(j + 1).to_set().contains(x),
                |x: u32| BasisPoints::spec_from(pressure_of(weights[x].0, weights[x].1) as u16),
            ));
        }
        j = j + 1;
    }
    proof {
        assert(ids@.take(ids@.len() as int) =~= ids@);
        assert(ids@.to_set() == weights.dom());
        assert(out@ =~= deprivation(consumed@, unmet@));
    }
    out
}

/// Settled fills name routes that exist and have a carrier.
proof fn lemma_settled_routes_have_carriers(
    cohorts: Map<u32, HouseholdCohort>,
    ledgers: Map<u32, Ledger>,
    routes: Map<u32, LogisticsRoute>,
    fs: Seq<MarketFill>,
)
    requires
        settle_fills(cohorts, ledgers, routes, fs) is Ok,
    ensures
        forall|j: int|
            0 <= j < fs.len() && (#[trigger] fs[j]).route is Some ==> routes.contains_key(fs[j].route->0@)
                && routes[fs[j].route->0@].spec_carrier() is Some,
    decreases fs.len(),
{
    if fs.len() > 0 {
        lemma_settled_routes_have_carriers(cohorts, ledgers, routes, fs.drop_last());
        assert forall|j: int|
            0 <= j < fs.len() && (#[trigger] fs[j]).route is Some implies routes.contains_key(fs[j].route->0@)
                && routes[fs[j].route->0@].spec_carrier() is Some by {
            if j < fs.len() - 1 {
                assert(fs[j] == fs.drop_last()[j]);
            }
        }
    }
}

impl World {
    /// Appends each outcome to its seller's history (see `outcome_history`).
    fn record_outcomes(&mut self, os: &Vec<MarketOfferOutcome>)
        ensures
            final(self)@ == (WorldView {
                monthly_firm_market_outcomes: outcome_history(old(self)@.monthly_firm_market_outcomes, os@),
                ..old(self)@
            }),
    {
        let ghost w0 = self@;
        let mut i: usize = 0;
        while i < os.len()
            invariant
                w0 == old(self)@,
                i <= os.len(),
                self@ == (WorldView {
                    monthly_firm_market_outcomes: outcome_history(w0.monthly_firm_market_outcomes, os@.take(i as int)),
                    ..w0
                }),
            decreases os.len() - i,
        {
            let o = os[i];
            proof {
                assert(os@.take(i + 1).drop_last() =~= os@.take(i as int));
                assert(os@.take(i + 1).last() == o);
            }
            let ghost before = self@.monthly_firm_market_outcomes;
            let mut history = match self.monthly_firm_market_outcomes.remove(&o.seller.get()) {
                Some(v) => v,
                None => Vec::new(),
            };
            history.push(o);
            self.monthly_firm_market_outcomes.insert(o.seller.get(), history);
            proof {
                let current = if before.contains_key(o.seller@) {
                    before[o.seller@]
                } else {
                    seq![]
                };
                assert(history@ == current.push(o));
                assert(self@.monthly_firm_market_outcomes =~= before.insert(o.seller@, current.push(o)));
                assert(self@ =~= (WorldView {
                    monthly_firm_market_outcomes: outcome_history(w0.monthly_firm_market_outcomes, os@.take(i + 1)),
                    ..w0
                }));
            }
            i = i + 1;
        }
        proof {
            assert(os@.take(os@.len() as int) =~= os@);
        }
    }

    /// Records the trades of the fills as events (see `trade_events`).
    fn record_trades(&mut self, fs: &Vec<MarketFill>)
        requires
            forall|j: int|
                0 <= j < fs@.len() && (#[trigger] fs@[j]).route is Some ==> old(self)@.logistics_routes.contains_key(
                    fs@[j].route->0@,
                ) && old(self)@.logistics_routes[fs@[j].route->0@].spec_carrier() is Some,
        ensures
            final(self)@ == (WorldView { events: trade_events(old(self)@.events, old(self)@, fs@), ..old(self)@ }),
    {
        let ghost w0 = self@;
        let mut i: usize = 0;
        while i < fs.len()
            invariant
                w0 == old(self)@,
                i <= fs.len(),
                forall|j: int|
                    0 <= j < fs@.len() && (#[trigger] fs@[j]).route is Some ==> w0.logistics_routes.contains_key(
                        fs@[j].route->0@,
                    ) && w0.logistics_routes[fs@[j].route->0@].spec_carrier() is Some,
                self@ == (WorldView { events: trade_events(w0.events, w0, fs@.take(i as int)), ..w0 }),
            decreases fs.len() - i,
        {
            let f = fs[i];
            proof {
                assert(fs@.take(i + 1).drop_last() =~= fs@.take(i as int));
                assert(fs@.take(i + 1).last() == f);
            }
            self.events.append(
                self.date,
                DomainEvent::MarketTrade {
                    buyer: f.buyer,
                    seller: f.seller,
                    good: f.good,
                    quantity: f.quantity,
                    spend: f.spend,
                },
            );
            match f.route {
                None => {},
                Some(r) => {
                    proof {
                        assert(fs@[i as int].route is Some);
                    }
                    let carrier = self.logistics_routes.get(&r.get()).unwrap().carrier().unwrap();
                    self.events.append(
                        self.date,
                        DomainEvent::MarketFreightPaid {
                            buyer: f.buyer,
                            seller: f.seller,
                            carrier,
                            route: r,
                            amount: f.freight_spend,
                        },
                    );
                },
            }
            i = i + 1;
        }
        proof {
            assert(fs@.take(fs@.len() as int) =~= fs@);
        }
    }
}

/// A consumption map with its quantities as quantities.
fn as_quantities(m: &BTreeMap<(u32, u32, u32), u64>) -> (r: BTreeMap<(u32, u32, u32), QuantityMilli>)
    ensures
        r@ == m@.map_values(|q: u64| QuantityMilli::spec_from(q)),
{
    let ks = triple_keys_in_order(m);
    proof {
        crate::ordered::lemma_triples_no_duplicates(ks@);
    }
    let mut out: BTreeMap<(u32, u32, u32), QuantityMilli> = BTreeMap::new();
    let mut i: usize = 0;
    while i < ks.len()
        invariant
            is_triple_key_order(m@, ks@),
            forall|j: int| 0 <= j < ks@.len() ==> m@.contains_key(#[trigger] ks@[j]),
            ks@.no_duplicates(),
            i <= ks.len(),
            out@ == m@.map_values(|q: u64| QuantityMilli::spec_from(q)).restrict(ks@.take(i as int).to_set()),
        decreases ks.len() - i,
    {
        let k = ks[i];
        out.insert(k, QuantityMilli::new(*m.get(&k).unwrap()));
        proof {
            assert(ks@.take(i + 1) =~= ks@.take(i as int).push(k));
            ks@.take(i as int).lemma_push_to_set_commute(k);
            assert(out@ =~= m@.map_values(|q: u64| QuantityMilli::spec_from(q)).restrict(ks@.take(i + 1).to_set()));
        }
        i = i + 1;
    }
    proof {
        assert(ks@.take(ks@.len() as int) =~= ks@);
        assert(out@ =~= m@.map_values(|q: u64| QuantityMilli::spec_from(q)));
    }
    out
}

impl World {
    /// Settles a cleared market atomically: checks that its offer outcomes add up in their
    /// sellers' regions and match what its fills delivered, then each fill in turn takes
    /// the delivered price out of the buyer's wealth, the goods out of the seller's stock,
    /// pays the seller the goods price and an import's carrier the freight. It records the
    /// month's consumption, unmet demand and deprivation pressure, appends the outcomes to
    /// the sellers' histories and records the trades (see `settlement_result`). Any error
    /// changes nothing.
    pub fn settle_local_market(&mut self, clearing: &MarketClearing) -> (r: Result<(), WorldError>)
        requires
            clearing.fills@.len() <= 0x8000_0000_0000,
            clearing.unmet@.dom().len() <= 0x8000_0000_0000,
            forall|k: (u32, u32, u32)| #[trigger] clearing.unmet@.contains_key(k) ==> k.2 <= 3,
        ensures
            match settlement_result(old(self)@, *clearing) {
                Err(e) => r == Err::<(), WorldError>(e) && final(self)@ == old(self)@,
                Ok((w2, ledgers)) => r is Ok && settled_world(w2, final(self)@, ledgers),
            },
    {
        let ghost w0 = self@;
        let sold = match self.outcome_sales_of(&clearing.offer_outcomes) {
            Ok(m) => m,
            Err(e) => {
                return Err(e);
            },
        };
        let delivered = match fill_sales_of(&clearing.fills) {
            Ok(m) => m,
            Err(e) => {
                return Err(e);
            },
        };
        if !same_sales(&sold, &delivered) {
            return Err(WorldError::InvalidMarketClearing("offer outcomes must match settled fills"));
        }
        let mut cohorts = self.cohorts.clone();
        let mut cash: BTreeMap<u32, i64> = BTreeMap::new();
        let mut stock: BTreeMap<(u32, u32), u64> = BTreeMap::new();
        proof {
            crate::procurement::lemma_lazy_start(self.firms@);
        }
        let fs = &clearing.fills;
        let mut i: usize = 0;
        while i < fs.len()
            invariant
                w0 == self@,
                w0 == old(self)@,
                fs@ == clearing.fills@,
                clearing_error(w0, *clearing) is None,
                i <= fs.len(),
                lazy_keys_known(self.firms@, cash@, stock@),
                settle_fills(w0.cohorts, w0.firms.map_values(|f: Firm| ledger_of(f)), w0.logistics_routes, fs@.take(i as int))
                    == Ok::<(Map<u32, HouseholdCohort>, Map<u32, Ledger>), WorldError>(
                    (cohorts@, lazy_ledgers(self.firms@, cash@, stock@)),
                ),
            decreases fs.len() - i,
        {
            let f = fs[i];
            proof {
                assert(fs@.take(i + 1).drop_last() =~= fs@.take(i as int));
                assert(fs@.take(i + 1).last() == f);
            }
            match apply_market_fill(&self.firms, &self.logistics_routes, &mut cohorts, &mut cash, &mut stock, f) {
                Ok(()) => {},
                Err(e) => {
                    proof {
                        assert(settle_fills(
                            w0.cohorts,
                            w0.firms.map_values(|f: Firm| ledger_of(f)),
                            w0.logistics_routes,
                            fs@.take(i + 1),
                        ) == Err::<(Map<u32, HouseholdCohort>, Map<u32, Ledger>), WorldError>(e));
                        lemma_settle_fills_err_sticks(
                            w0.cohorts,
                            w0.firms.map_values(|f: Firm| ledger_of(f)),
                            w0.logistics_routes,
                            fs@,
                            i + 1,
                        );
                        assert(clearing.fills@ == fs@);
                        assert(settlement_result(w0, *clearing) == Err::<(WorldView, Map<u32, Ledger>), WorldError>(e));
                    }
                    return Err(e);
                },
            }
            i = i + 1;
        }
        proof {
            assert(fs@.take(fs@.len() as int) =~= fs@);
        }
        let consumed = match consumption_of(&clearing.fills) {
            Ok(m) => m,
            Err(e) => {
                return Err(e);
            },
        };
        let pressure = deprivation_of(&consumed, &clearing.unmet);
        let quantities = as_quantities(&consumed);
        let ghost ledgers = lazy_ledgers(self.firms@, cash@, stock@);
        let ghost settled_cohorts = cohorts@;
        let ghost w2 = settlement_result(w0, *clearing)->Ok_0.0;
        proof {
            assert(settlement_result(w0, *clearing) == Ok::<(WorldView, Map<u32, Ledger>), WorldError>(
                (w2, ledgers),
            ));
        }
        proof {
            lemma_settled_routes_have_carriers(
                w0.cohorts,
                w0.firms.map_values(|f: Firm| ledger_of(f)),
                w0.logistics_routes,
                fs@,
            );
        }
        self.record_trades(&clearing.fills);
        self.record_outcomes(&clearing.offer_outcomes);
        self.cohorts = cohorts;
        self.monthly_consumption = quantities;
        self.unmet_demand = clearing.unmet.clone();
        self.deprivation_pressure = pressure;
        commit_cash(&mut self.firms, &cash);
        let ghost mid = self.firms@;
        commit_stock(&mut self.firms, &stock);
        proof {
            assert(self@.cohorts == w2.cohorts);
            assert(self@.monthly_consumption == w2.monthly_consumption);
            assert(self@.unmet_demand == w2.unmet_demand);
            assert(self@.deprivation_pressure == w2.deprivation_pressure);
            assert(self@.monthly_firm_market_outcomes == w2.monthly_firm_market_outcomes);
            assert(self@.events == w2.events);
            assert(self@ =~= (WorldView { firms: self@.firms, ..w2 }));
            assert(forall|k: (u32, u32)| #[trigger] stock@.contains_key(k) ==> w0.firms.contains_key(k.0));
            assert forall|id: u32| #[trigger] w0.firms.contains_key(id) implies same_identity_of(self@.firms[id], w0.firms[id])
                && ledger_of(self@.firms[id]) == ledgers[id] by {
                assert(lazy_stock(mid, stock@, id) =~= lazy_stock(w0.firms, stock@, id));
                assert(ledger_of(self@.firms[id]).stock =~= ledgers[id].stock);
            }
        }
        Ok(())
    }
}

/// Two firms that differ at most in cash and inventory.
pub open spec fn same_identity_of(a: Firm, b: Firm) -> bool {
    crate::procurement::same_identity(a, b)
}

impl World {
    /// The month's consumption by (cohort, good, tier rank).
    pub fn monthly_consumption(&self) -> (r: &BTreeMap<(u32, u32, u32), QuantityMilli>)
        ensures
            r@ == self@.monthly_consumption,
    {
        &self.monthly_consumption
    }

    /// The month's unmet demand by (cohort, good, tier rank).
    pub fn unmet_demand(&self) -> (r: &BTreeMap<(u32, u32, u32), QuantityMilli>)
        ensures
            r@ == self@.unmet_demand,
    {
        &self.unmet_demand
    }

    /// Each cohort's deprivation pressure after the month's market.
    pub fn deprivation_pressure(&self) -> (r: &BTreeMap<u32, BasisPoints>)
        ensures
            r@ == self@.deprivation_pressure,
    {
        &self.deprivation_pressure
    }

    /// Each seller's offer outcomes of the month.
    pub fn monthly_firm_market_outcomes(&self) -> (r: &BTreeMap<u32, Vec<MarketOfferOutcome>>)
        ensures
            r@.map_values(|v: Vec<MarketOfferOutcome>| v@) == self@.monthly_firm_market_outcomes,
    {
        &self.monthly_firm_market_outcomes
    }
}

/// The liquid wealth of the cohorts `ids`, summed.
pub open spec fn wealth_total(cohorts: Map<u32, HouseholdCohort>, ids: Seq<u32>) -> int
    decreases ids.len(),
{
    if ids.len() == 0 {
        0
    } else {
        wealth_total(cohorts, ids.drop_last()) + cohorts[ids.last()].liquid_wealth@
    }
}

/// What the fills `fs` delivered of good `g`.
pub open spec fn delivered_of(fs: Seq<MarketFill>, g: u32) -> int
    decreases fs.len(),
{
    if fs.len() == 0 {
        0
    } else {
        delivered_of(fs.drop_last(), g) + if fs.last().good@ == g {
            fs.last().quantity@ as int
        } else {
            0
        }
    }
}

/// Changing one cohort changes the summed wealth by the difference, where it is listed.
proof fn lemma_wealth_after_update(m: Map<u32, HouseholdCohort>, ids: Seq<u32>, k: u32, c: HouseholdCohort)
    requires
        ids.no_duplicates(),
    ensures
        wealth_total(m.insert(k, c), ids) == wealth_total(m, ids) + if ids.contains(k) {
            c.liquid_wealth@ - m[k].liquid_wealth@
        } else {
            0
        },
    decreases ids.len(),
{
    if ids.len() > 0 {
        let rest = ids.drop_last();
        assert(rest.no_duplicates());
        lemma_wealth_after_update(m, rest, k, c);
        if ids.last() == k {
            assert(!rest.contains(k));
        }
        assert(ids.contains(k) == (rest.contains(k) || ids.last() == k)) by {
            if ids.contains(k) {
                let i = choose|i: int| 0 <= i < ids.len() && ids[i] == k;
                if i < ids.len() - 1 {
                    assert(rest[i] == k);
                }
            }
            if rest.contains(k) {
                let i = choose|i: int| 0 <= i < rest.len() && rest[i] == k;
                assert(ids[i] == k);
            }
        }
    }
}

/// One settled fill moves its payment from the buyer to the seller and the carrier, and
/// its goods out of the seller's stock.
proof fn lemma_fill_conserves(
    cohorts: Map<u32, HouseholdCohort>,
    ledgers: Map<u32, Ledger>,
    routes: Map<u32, LogisticsRoute>,
    f: MarketFill,
    cids: Seq<u32>,
    fids: Seq<u32>,
    g: u32,
)
    requires
        cids.no_duplicates(),
        cids.to_set() == cohorts.dom(),
        fids.no_duplicates(),
        fids.to_set() == ledgers.dom(),
        settle_fill(cohorts, ledgers, routes, f) is Ok,
    ensures
        ({
            let (cs, ls) = settle_fill(cohorts, ledgers, routes, f)->Ok_0;
            &&& cs.dom() == cohorts.dom()
            &&& ls.dom() == ledgers.dom()
            &&& wealth_total(cs, cids) + cash_total(ls, fids) == wealth_total(cohorts, cids) + cash_total(
                ledgers,
                fids,
            ) + f.goods_spend@ + (if f.route is Some {
                f.freight_spend@ as int
            } else {
                0
            }) - f.spend@
            &&& stock_total(ls, fids, g) == stock_total(ledgers, fids, g) - if f.good@ == g {
                f.quantity@ as int
            } else {
                0
            }
        }),
{
    let b = f.buyer@;
    let s = f.seller@;
    let paid = wealth_debit(cohorts[b], f.spend)->Ok_0;
    assert(cids.to_set().contains(b));
    lemma_wealth_after_update(cohorts, cids, b, paid);
    assert(cohorts.insert(b, paid).dom() =~= cohorts.dom());
    assert(fids.to_set().contains(s));
    let l1 = ledgers.insert(s, stock_taken(ledgers[s], f.good@, f.quantity@ as int));
    lemma_totals_after_update(ledgers, fids, s, stock_taken(ledgers[s], f.good@, f.quantity@ as int), g);
    assert(held(stock_taken(ledgers[s], f.good@, f.quantity@ as int).stock, g) == held(ledgers[s].stock, g) - if f.good@
        == g {
        f.quantity@ as int
    } else {
        0
    });
    let l2 = l1.insert(s, with_cash(l1[s], l1[s].cash + f.goods_spend@));
    lemma_totals_after_update(l1, fids, s, with_cash(l1[s], l1[s].cash + f.goods_spend@), g);
    assert(l1.dom() =~= ledgers.dom());
    assert(l2.dom() =~= ledgers.dom());
    match f.route {
        None => {},
        Some(r) => {
            let carrier = routes[r@].spec_carrier()->0;
            assert(fids.to_set().contains(carrier@));
            lemma_totals_after_update(l2, fids, carrier@, with_cash(l2[carrier@], l2[carrier@].cash + f.freight_spend@), g);
            assert(l2.insert(carrier@, with_cash(l2[carrier@], l2[carrier@].cash + f.freight_spend@)).dom() =~= ledgers.dom());
        },
    }
}

/// The goods-price and freight payments of the fills `fs`, less what the buyers paid.
pub open spec fn payment_gap(fs: Seq<MarketFill>) -> int
    decreases fs.len(),
{
    if fs.len() == 0 {
        0
    } else {
        payment_gap(fs.drop_last()) + fs.last().goods_spend@ + (if fs.last().route is Some {
            fs.last().freight_spend@ as int
        } else {
            0
        }) - fs.last().spend@
    }
}

proof fn lemma_fills_conserve(
    cohorts: Map<u32, HouseholdCohort>,
    ledgers: Map<u32, Ledger>,
    routes: Map<u32, LogisticsRoute>,
    fs: Seq<MarketFill>,
    cids: Seq<u32>,
    fids: Seq<u32>,
    g: u32,
)
    requires
        cids.no_duplicates(),
        cids.to_set() == cohorts.dom(),
        fids.no_duplicates(),
        fids.to_set() == ledgers.dom(),
        settle_fills(cohorts, ledgers, routes, fs) is Ok,
    ensures
        ({
            let (cs, ls) = settle_fills(cohorts, ledgers, routes, fs)->Ok_0;
            &&& cs.dom() == cohorts.dom()
            &&& ls.dom() == ledgers.dom()
            &&& wealth_total(cs, cids) + cash_total(ls, fids) == wealth_total(cohorts, cids) + cash_total(
                ledgers,
                fids,
            ) + payment_gap(fs)
            &&& stock_total(ls, fids, g) == stock_total(ledgers, fids, g) - delivered_of(fs, g)
        }),
    decreases fs.len(),
{
    if fs.len() > 0 {
        lemma_fills_conserve(cohorts, ledgers, routes, fs.drop_last(), cids, fids, g);
        let (cs, ls) = settle_fills(cohorts, ledgers, routes, fs.drop_last())->Ok_0;
        lemma_fill_conserves(cs, ls, routes, fs.last(), cids, fids, g);
    }
}

/// Settling a market creates and destroys neither money nor goods: where every fill's
/// payment is exactly its goods price plus its freight (as every fill of a clearing is),
/// the wealth of all cohorts plus the cash of all firms is what it was, and the firms
/// together hold of each good what they held less what the fills delivered of it.
pub proof fn lemma_settlement_conserves_money_and_goods(
    w: WorldView,
    c: MarketClearing,
    cids: Seq<u32>,
    fids: Seq<u32>,
    g: u32,
)
    requires
        cids.no_duplicates(),
        cids.to_set() == w.cohorts.dom(),
        fids.no_duplicates(),
        fids.to_set() == w.firms.dom(),
        forall|j: int|
            0 <= j < c.fills@.len() ==> (#[trigger] c.fills@[j]).spend@ == c.fills@[j].goods_spend@ + c.fills@[j].freight_spend@
                && (c.fills@[j].route is None ==> c.fills@[j].freight_spend@ == 0),
        settlement_result(w, c) is Ok,
    ensures
        ({
            let (w2, ledgers) = settlement_result(w, c)->Ok_0;
            let start = w.firms.map_values(|f: Firm| ledger_of(f));
            &&& wealth_total(w2.cohorts, cids) + cash_total(ledgers, fids) == wealth_total(w.cohorts, cids)
                + cash_total(start, fids)
            &&& stock_total(ledgers, fids, g) == stock_total(start, fids, g) - delivered_of(c.fills@, g)
        }),
{
    let start = w.firms.map_values(|f: Firm| ledger_of(f));
    assert(start.dom() =~= w.firms.dom());
    lemma_fills_conserve(w.cohorts, start, w.logistics_routes, c.fills@, cids, fids, g);
    lemma_no_payment_gap(c.fills@);
}

proof fn lemma_no_payment_gap(fs: Seq<MarketFill>)
    requires
        forall|j: int|
            0 <= j < fs.len() ==> (#[trigger] fs[j]).spend@ == fs[j].goods_spend@ + fs[j].freight_spend@ && (fs[j].route
                is None ==> fs[j].freight_spend@ == 0),
    ensures
        payment_gap(fs) == 0,
    decreases fs.len(),
{
    if fs.len() > 0 {
        assert forall|j: int| 0 <= j < fs.drop_last().len() implies (#[trigger] fs.drop_last()[j]).spend@
            == fs.drop_last()[j].goods_spend@ + fs.drop_last()[j].freight_spend@ && (fs.drop_last()[j].route is None
            ==> fs.drop_last()[j].freight_spend@ == 0) by {
            assert(fs.drop_last()[j] == fs[j]);
        }
        lemma_no_payment_gap(fs.drop_last());
        assert(fs.last() == fs[fs.len() - 1]);
    }
}

} // verus!
