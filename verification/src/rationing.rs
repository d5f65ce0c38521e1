use vstd::prelude::*;

use crate::apportion::{
    apportioned, comes_before, count_upto, lemma_apportioned_sum, lemma_nonneg_sum_facts, lemma_sum_affine,
    lemma_sum_bounds, remainder_rank, seq_sum,
};
use std::collections::BTreeMap;

use crate::demand::NeedTier;
use crate::event::{DomainEvent, EventEnvelope};
use crate::ids::{CohortId, CountryId, GoodId, RegionId};
use crate::market::{MarketClearing, MarketOffer, MarketOfferOutcome, MarketOrder};
use crate::ordered::{is_pair_key_order, lemma_pair_key_order_same_dom, pair_key_order, pair_keys_in_order};
use crate::relief::{policy_of, GovernmentEmergencyPolicy, PhysicalShortageStrategy};
use crate::time::SimDate;
use crate::world::{World, WorldError, WorldView};
use crate::service_allocation::rank_of;
use crate::value::QuantityMilli;

verus! {

broadcast use QuantityMilli::lemma_spec_from_view, QuantityMilli::lemma_from_own_view;

/// One cohort's survival ration: what it asked for and what it may buy.
#[derive(Clone, Copy, Debug, PartialEq, Eq, Structural)]
pub struct SurvivalRationingAllocation {
    pub cohort: CohortId,
    pub requested: QuantityMilli,
    pub quota: QuantityMilli,
}

/// The rationing of one scarce survival good in one region.
#[derive(Clone, Debug, PartialEq, Eq)]
pub struct SurvivalRationingOutcome {
    pub country: CountryId,
    pub region: RegionId,
    pub good: GoodId,
    pub requested: QuantityMilli,
    pub available: QuantityMilli,
    pub allocations: Vec<SurvivalRationingAllocation>,
}

/// The orders at positions `idx`, in that order.
pub open spec fn rows_at(orders: Seq<MarketOrder>, idx: Seq<int>) -> Seq<MarketOrder> {
    Seq::new(idx.len(), |j: int| orders[idx[j]])
}

/// The quantities the rows ask for.
pub open spec fn row_quantities(rows: Seq<MarketOrder>) -> Seq<int> {
    Seq::new(rows.len(), |j: int| rows[j].quantity@ as int)
}

/// The total quantity the rows ask for.
pub open spec fn requested_total(rows: Seq<MarketOrder>) -> int {
    seq_sum(row_quantities(rows))
}

/// Each row's exact share of the available quantity, scaled by the total requested.
pub open spec fn ration_shares(rows: Seq<MarketOrder>, available: int) -> Seq<int> {
    Seq::new(rows.len(), |j: int| rows[j].quantity@ * available)
}

/// The whole part of each row's proportional share.
pub open spec fn ration_floors(rows: Seq<MarketOrder>, available: int, requested: int) -> Seq<int> {
    Seq::new(rows.len(), |j: int| ration_shares(rows, available)[j] / requested)
}

/// What each row's proportional share leaves over its whole part, scaled by the total.
pub open spec fn ration_rems(rows: Seq<MarketOrder>, available: int, requested: int) -> Seq<int> {
    Seq::new(rows.len(), |j: int| ration_shares(rows, available)[j] % requested)
}

/// The order in which rows receive a leftover unit: the larger remainder first, among
/// equal remainders the smaller cohort, and among equal cohorts the earlier row.
pub open spec fn ration_keys(rows: Seq<MarketOrder>, available: int, requested: int) -> Seq<int> {
    Seq::new(
        rows.len(),
        |j: int| ration_rems(rows, available, requested)[j] * 0x1_0000_0000 + (0xffff_ffff - rows[j].buyer@),
    )
}

/// The units left once every row has its whole part.
pub open spec fn ration_extra(rows: Seq<MarketOrder>, available: int, requested: int) -> int {
    available - seq_sum(ration_floors(rows, available, requested))
}

/// The survival quotas: whole parts, plus one unit each for the rows first in
/// [`ration_keys`] order while leftover units remain.
pub open spec fn ration_quotas(rows: Seq<MarketOrder>, available: int, requested: int) -> Seq<int> {
    apportioned(
        ration_floors(rows, available, requested),
        ration_keys(rows, available, requested),
        ration_extra(rows, available, requested),
    )
}

/// The allocation of each row: its cohort, what it asked for and its quota.
pub open spec fn ration_allocations(rows: Seq<MarketOrder>, available: int, requested: int) -> Seq<
    SurvivalRationingAllocation,
> {
    Seq::new(
        rows.len(),
        |j: int|
            SurvivalRationingAllocation {
                cohort: rows[j].buyer,
                requested: rows[j].quantity,
                quota: QuantityMilli::spec_from(ration_quotas(rows, available, requested)[j] as u64),
            },
    )
}

/// The rows whose value is positive.
pub open spec fn positive_at(s: Seq<int>) -> spec_fn(int) -> bool {
    |j: int| s[j] > 0
}

/// Counting is monotone in the predicate.
pub proof fn lemma_count_mono(p: spec_fn(int) -> bool, q: spec_fn(int) -> bool, m: int)
    requires
        forall|j: int| 0 <= j < m && #[trigger] p(j) ==> q(j),
    ensures
        count_upto(p, m) <= count_upto(q, m),
    decreases m,
{
    if m > 0 {
        lemma_count_mono(p, q, m - 1);
    }
}

/// A sum of values in `0..=b` is at most `b` times the number of positive values.
pub proof fn lemma_sum_within_positive_count(s: Seq<int>, b: int, m: int)
    requires
        0 <= m <= s.len(),
        0 <= b,
        forall|j: int| 0 <= j < s.len() ==> 0 <= #[trigger] s[j] <= b,
    ensures
        seq_sum(s.take(m)) <= b * count_upto(positive_at(s), m),
    decreases m,
{
    if m > 0 {
        lemma_sum_within_positive_count(s, b, m - 1);
        assert(s.take(m).drop_last() =~= s.take(m - 1));
        let c = count_upto(positive_at(s), m - 1);
        assert(b * (c + 1) == b * c + b) by (nonlinear_arith);
    }
}

/// Proportional rationing of a short supply hands out exactly the supply: the quotas add
/// up to `available`, each lies within one unit above its row's exact proportional share,
/// and none exceeds what its row asked for.
pub proof fn lemma_rations_share_the_supply(rows: Seq<MarketOrder>, available: int)
    requires
        0 <= available < requested_total(rows),
    ensures
        seq_sum(ration_quotas(rows, available, requested_total(rows))) == available,
        forall|j: int|
            0 <= j < rows.len() ==> {
                let q = #[trigger] ration_quotas(rows, available, requested_total(rows))[j];
                &&& 0 <= ration_floors(rows, available, requested_total(rows))[j] <= q
                &&& q <= ration_floors(rows, available, requested_total(rows))[j] + 1
                &&& q <= rows[j].quantity@
            },
        0 <= ration_extra(rows, available, requested_total(rows)) < rows.len(),
{
    let r = requested_total(rows);
    let n = rows.len() as int;
    let qs = row_quantities(rows);
    let nums = ration_shares(rows, available);
    let f = ration_floors(rows, available, r);
    let m = ration_rems(rows, available, r);
    let keys = ration_keys(rows, available, r);
    let zeros = Seq::new(rows.len(), |j: int| 0int);
    if n == 0 {
        assert(qs =~= Seq::<int>::empty());
    }
    assert(n >= 1);
    assert forall|j: int| 0 <= j < n implies nums[j] == available * qs[j] + zeros[j] by {
        assert(rows[j].quantity@ * available == available * rows[j].quantity@) by (nonlinear_arith);
    }
    lemma_sum_affine(qs, zeros, nums, available);
    lemma_sum_bounds(zeros, 0, 0);
    assert forall|j: int| 0 <= j < n implies nums[j] == r * f[j] + m[j] && 0 <= m[j] < r && 0 <= f[j]
        <= qs[j] && (m[j] > 0 ==> f[j] < qs[j]) by {
        let x = nums[j];
        let q = qs[j];
        assert(x == q * available);
        assert(0 <= x) by (nonlinear_arith)
            requires
                x == q * available,
                0 <= q,
                0 <= available,
        ;
        assert(x == r * (x / r) + x % r && 0 <= x % r < r) by (nonlinear_arith)
            requires
                r > 0,
        ;
        assert(0 <= x / r) by (nonlinear_arith)
            requires
                r > 0,
                0 <= x,
        ;
        assert(x / r <= q && (x % r > 0 ==> x / r < q)) by (nonlinear_arith)
            requires
                r > 0,
                x == q * available,
                0 <= q,
                0 <= available < r,
                x == r * (x / r) + x % r,
                0 <= x % r,
        ;
    }
    lemma_sum_affine(f, m, nums, r);
    lemma_sum_bounds(m, 0, r - 1);
    let sf = seq_sum(f);
    let sm = seq_sum(m);
    assert(r * sf + sm == available * r);
    assert(0 <= available - sf < n) by (nonlinear_arith)
        requires
            r * sf + sm == available * r,
            0 <= sm <= n * (r - 1),
            r > 0,
            n >= 1,
    ;
    let e = available - sf;
    assert(sm == r * e) by (nonlinear_arith)
        requires
            r * sf + sm == available * r,
            e == available - sf,
    ;
    lemma_apportioned_sum(f, keys, e);
    // Rows with a positive remainder number at least `e`.
    lemma_sum_within_positive_count(m, r - 1, n);
    assert(m.take(n) =~= m);
    let p = count_upto(positive_at(m), n);
    assert(p >= e) by (nonlinear_arith)
        requires
            sm == r * e,
            sm <= (r - 1) * p,
            r >= 1,
            e >= 0,
            p >= 0,
    ;
    assert forall|j: int| 0 <= j < n implies #[trigger] ration_quotas(rows, available, r)[j] <= rows[j].quantity@ by {
        if m[j] == 0 {
            let before = |k: int| comes_before(keys, k, j);
            assert forall|k: int| 0 <= k < n && #[trigger] positive_at(m)(k) implies before(k) by {
                assert(keys[k] >= 0x1_0000_0000);
                assert(keys[j] <= 0xffff_ffff);
            }
            lemma_count_mono(positive_at(m), before, n);
            assert(remainder_rank(keys, j) >= e);
        }
    }
}

/// The total quantity offered in market `key` (region, good).
pub open spec fn offer_supply(offers: Seq<MarketOffer>, key: (u32, u32)) -> int
    decreases offers.len(),
{
    if offers.len() == 0 {
        0
    } else {
        offer_supply(offers.drop_last(), key) + if offers.last().region@ == key.0 && offers.last().good@
            == key.1 {
            offers.last().quantity@ as int
        } else {
            0int
        }
    }
}

/// Some market's total offered quantity does not fit `u64`.
pub open spec fn supply_overflows(offers: Seq<MarketOffer>) -> bool {
    exists|key: (u32, u32)| #[trigger] offer_supply(offers, key) > u64::MAX
}

/// A stored running total, zero where none is stored.
pub open spec fn stored_or_zero(m: Map<(u32, u32), u64>, key: (u32, u32)) -> int {
    if m.contains_key(key) {
        m[key] as int
    } else {
        0
    }
}

/// Supply never shrinks as offers are added.
pub proof fn lemma_offer_supply_grows(offers: Seq<MarketOffer>, key: (u32, u32), m: int)
    requires
        0 <= m <= offers.len(),
    ensures
        0 <= offer_supply(offers.take(m), key) <= offer_supply(offers, key),
    decreases offers.len(),
{
    if m == offers.len() {
        assert(offers.take(m) =~= offers);
        if offers.len() > 0 {
            lemma_offer_supply_grows(offers.drop_last(), key, m - 1);
            assert(offers.drop_last().take(m - 1) =~= offers.drop_last());
        }
    } else {
        lemma_offer_supply_grows(offers.drop_last(), key, m);
        assert(offers.drop_last().take(m) =~= offers.take(m));
    }
}

/// The quantity offered in each market, keyed by (region, good).
fn survival_supply(offers: &[MarketOffer]) -> (r: Result<BTreeMap<(u32, u32), u64>, WorldError>)
    ensures
        supply_overflows(offers@) ==> r == Err::<BTreeMap<(u32, u32), u64>, WorldError>(
            WorldError::ArithmeticOverflow("rationable survival supply"),
        ),
        !supply_overflows(offers@) ==> (r matches Ok(m) && forall|key: (u32, u32)|
            #[trigger] stored_or_zero(m@, key) == offer_supply(offers@, key)),
{
    let mut supply: BTreeMap<(u32, u32), u64> = BTreeMap::new();
    let mut i: usize = 0;
    while i < offers.len()
        invariant
            i <= offers.len(),
            forall|key: (u32, u32)| #[trigger] stored_or_zero(supply@, key) == offer_supply(offers@.take(i as int), key),
        decreases offers.len() - i,
    {
        let offer = offers[i];
        let key = (offer.region.get(), offer.good.get());
        let current: u64 = match supply.get(&key) {
            Some(v) => *v,
            None => 0,
        };
        proof {
            assert(offers@.take(i + 1).drop_last() =~= offers@.take(i as int));
            assert(current as int == stored_or_zero(supply@, key));
        }
        match current.checked_add(offer.quantity.get()) {
            Some(total) => {
                let ghost before = supply@;
                supply.insert(key, total);
                proof {
                    assert forall|k: (u32, u32)| #[trigger] stored_or_zero(supply@, k) == offer_supply(
                        offers@.take(i + 1),
                        k,
                    ) by {
                        assert(offers@.take(i + 1).last() == offer);
                        assert(stored_or_zero(before, k) == offer_supply(offers@.take(i as int), k));
                        assert(offer_supply(offers@.take(i + 1), k) == offer_supply(offers@.take(i as int), k)
                            + if offer.region@ == k.0 && offer.good@ == k.1 {
                            offer.quantity@ as int
                        } else {
                            0int
                        });
                    }
                }
            },
            None => {
                proof {
                    assert(offers@.take(i + 1).last() == offer);
                    assert(offer_supply(offers@.take(i + 1), key) > u64::MAX);
                    lemma_offer_supply_grows(offers@, key, i + 1);
                    assert(offer_supply(offers@, key) > u64::MAX);
                }
                return Err(WorldError::ArithmeticOverflow("rationable survival supply"));
            },
        }
        i = i + 1;
    }
    proof {
        assert(offers@.take(offers.len() as int) =~= offers@);
        assert forall|key: (u32, u32)| !(#[trigger] offer_supply(offers@, key) > u64::MAX) by {
            assert(stored_or_zero(supply@, key) == offer_supply(offers@, key));
        }
    }
    Ok(supply)
}

/// Whether an order is a survival order in market `key` (region, good).
pub open spec fn in_survival_group(o: MarketOrder, key: (u32, u32)) -> bool {
    o.tier == NeedTier::Survival && o.region@ == key.0 && o.good@ == key.1
}

/// The positions below `m` of the survival orders in market `key`, in increasing order.
pub open spec fn group_positions(orders: Seq<MarketOrder>, key: (u32, u32), m: int) -> Seq<int>
    decreases m,
{
    if m <= 0 {
        Seq::empty()
    } else if in_survival_group(orders[m - 1], key) {
        group_positions(orders, key, m - 1).push(m - 1)
    } else {
        group_positions(orders, key, m - 1)
    }
}

/// The survival markets that have orders, each with the positions of its orders.
pub open spec fn survival_groups(orders: Seq<MarketOrder>) -> Map<(u32, u32), Seq<int>> {
    Map::new(
        |key: (u32, u32)| group_positions(orders, key, orders.len() as int).len() > 0,
        |key: (u32, u32)| group_positions(orders, key, orders.len() as int),
    )
}

/// Group positions lie below their bound and point at orders of their market.
pub proof fn lemma_group_positions(orders: Seq<MarketOrder>, key: (u32, u32), m: int)
    requires
        0 <= m <= orders.len(),
    ensures
        forall|j: int|
            0 <= j < group_positions(orders, key, m).len() ==> 0 <= #[trigger] group_positions(
                orders,
                key,
                m,
            )[j] < m && in_survival_group(orders[group_positions(orders, key, m)[j]], key),
    decreases m,
{
    if m > 0 {
        lemma_group_positions(orders, key, m - 1);
        let before = group_positions(orders, key, m - 1);
        let now = group_positions(orders, key, m);
        assert forall|j: int| 0 <= j < now.len() implies 0 <= #[trigger] now[j] < m && in_survival_group(
            orders[now[j]],
            key,
        ) by {
            if j < before.len() {
                assert(now[j] == before[j]);
            }
        }
    }
}

/// The survival orders grouped by market, each group listing its positions in order.
fn survival_groups_of(orders: &Vec<MarketOrder>) -> (r: BTreeMap<(u32, u32), Vec<usize>>)
    ensures
        r@.dom() == survival_groups(orders@).dom(),
        forall|key: (u32, u32)|
            #[trigger] r@.contains_key(key) ==> r@[key]@.map_values(|x: usize| x as int)
                == group_positions(orders@, key, orders@.len() as int),
{
    let mut groups: BTreeMap<(u32, u32), Vec<usize>> = BTreeMap::new();
    let mut i: usize = 0;
    while i < orders.len()
        invariant
            i <= orders.len(),
            forall|key: (u32, u32)| #[trigger]
                groups@.contains_key(key) <==> group_positions(orders@, key, i as int).len() > 0,
            forall|key: (u32, u32)|
                #[trigger] groups@.contains_key(key) ==> groups@[key]@.map_values(|x: usize| x as int)
                    == group_positions(orders@, key, i as int),
        decreases orders.len() - i,
    {
        let order = orders[i];
        if order.tier == NeedTier::Survival {
            let key = (order.region.get(), order.good.get());
            let mut row: Vec<usize> = match groups.remove(&key) {
                Some(v) => v,
                None => Vec::new(),
            };
            proof {
                assert(row@.map_values(|x: usize| x as int) =~= group_positions(orders@, key, i as int));
            }
            row.push(i);
            proof {
                assert(row@.map_values(|x: usize| x as int) =~= group_positions(orders@, key, i + 1));
            }
            groups.insert(key, row);
        }
        proof {
            assert forall|key: (u32, u32)| #[trigger]
                groups@.contains_key(key) <==> group_positions(orders@, key, i + 1).len() > 0 by {
                if !in_survival_group(order, key) {
                    assert(group_positions(orders@, key, i + 1) == group_positions(orders@, key, i as int));
                }
            }
            assert forall|key: (u32, u32)|
                #[trigger] groups@.contains_key(key) implies groups@[key]@.map_values(|x: usize| x as int)
                    == group_positions(orders@, key, i + 1) by {
                if !in_survival_group(order, key) {
                    assert(group_positions(orders@, key, i + 1) == group_positions(orders@, key, i as int));
                }
            }
        }
        i = i + 1;
    }
    proof {
        assert(groups@.dom() =~= survival_groups(orders@).dom());
    }
    groups
}

/// The proportional rations of one group of survival orders.
fn plan_group(
    orders: &Vec<MarketOrder>,
    indexes: &Vec<usize>,
    country: CountryId,
    region: RegionId,
    good: GoodId,
    available: u64,
    requested: u64,
) -> (r: SurvivalRationingOutcome)
    requires
        forall|j: int| 0 <= j < indexes@.len() ==> #[trigger] indexes@[j] < orders@.len(),
        requested as int == requested_total(rows_at(orders@, indexes@.map_values(|x: usize| x as int))),
        available < requested,
    ensures
        r.country == country,
        r.region == region,
        r.good == good,
        r.requested@ == requested,
        r.available@ == available,
        r.allocations@ == ration_allocations(
            rows_at(orders@, indexes@.map_values(|x: usize| x as int)),
            available as int,
            requested as int,
        ),
{
    let ghost rows = rows_at(orders@, indexes@.map_values(|x: usize| x as int));
    let ghost a = available as int;
    let ghost req = requested as int;
    proof {
        lemma_rations_share_the_supply(rows, a);
        lemma_nonneg_sum_facts(row_quantities(rows));
    }
    let mut floors: Vec<u64> = Vec::new();
    let mut keys: Vec<u128> = Vec::new();
    let mut assigned: u64 = 0;
    let mut i: usize = 0;
    while i < indexes.len()
        invariant
            rows == rows_at(orders@, indexes@.map_values(|x: usize| x as int)),
            forall|j: int| 0 <= j < indexes@.len() ==> #[trigger] indexes@[j] < orders@.len(),
            req == requested_total(rows),
            a == available,
            req == requested,
            available < requested,
            forall|m: int| 0 <= m <= rows.len() ==> 0 <= #[trigger] seq_sum(row_quantities(rows).take(m)) <= req,
            i <= indexes.len(),
            floors.len() == i,
            keys.len() == i,
            forall|j: int| 0 <= j < i ==> floors@[j] as int == #[trigger] ration_floors(rows, a, req)[j],
            forall|j: int| 0 <= j < i ==> keys@[j] as int == #[trigger] ration_keys(rows, a, req)[j],
            assigned as int == seq_sum(ration_floors(rows, a, req).take(i as int)),
            assigned as int <= seq_sum(row_quantities(rows).take(i as int)),
        decreases indexes.len() - i,
    {
        let order = orders[indexes[i]];
        let q = order.quantity.get();
        proof {
            assert(q as u128 * available as u128 <= 0xffff_ffff_ffff_ffffu128 * 0xffff_ffff_ffff_ffffu128)
                by (nonlinear_arith);
        }
        let numerator: u128 = q as u128 * available as u128;
        let base_wide: u128 = numerator / requested as u128;
        let rem: u128 = numerator % requested as u128;
        proof {
            assert(rows[i as int] == order);
            assert(numerator as int == ration_shares(rows, a)[i as int]);
            assert(base_wide <= q) by (nonlinear_arith)
                requires
                    numerator == q * available,
                    base_wide == numerator / (requested as u128),
                    available < requested,
            ;
            assert(rem < requested) by (nonlinear_arith)
                requires
                    rem == numerator % (requested as u128),
                    requested > 0,
            ;
            assert(ration_floors(rows, a, req).take(i + 1).drop_last() =~= ration_floors(rows, a, req).take(
                i as int,
            ));
            assert(row_quantities(rows).take(i + 1).drop_last() =~= row_quantities(rows).take(i as int));
            assert(row_quantities(rows)[i as int] == q);
            assert(seq_sum(row_quantities(rows).take(i + 1)) == seq_sum(row_quantities(rows).take(i as int)) + q);
            assert(seq_sum(row_quantities(rows).take(i + 1)) <= req);
        }
        let base = base_wide as u64;
        assigned = assigned + base;
        floors.push(base);
        keys.push(rem * 0x1_0000_0000 + (0xffff_ffff - order.buyer.get() as u128));
        i = i + 1;
    }
    proof {
        assert(ration_floors(rows, a, req).take(rows.len() as int) =~= ration_floors(rows, a, req));
        assert(keys@.map_values(|x: u128| x as int) =~= ration_keys(rows, a, req));
    }
    let leftover: u64 = available - assigned;
    let mut allocations: Vec<SurvivalRationingAllocation> = Vec::new();
    let mut k: usize = 0;
    while k < indexes.len()
        invariant
            rows == rows_at(orders@, indexes@.map_values(|x: usize| x as int)),
            req == requested_total(rows),
            a == available,
            req == requested,
            leftover as int == ration_extra(rows, a, req),
            floors.len() == indexes.len(),
            keys.len() == indexes.len(),
            forall|j: int| 0 <= j < indexes.len() ==> floors@[j] as int == #[trigger] ration_floors(rows, a, req)[j],
            keys@.map_values(|x: u128| x as int) == ration_keys(rows, a, req),
            forall|j: int| 0 <= j < indexes.len() ==> #[trigger] indexes@[j] < orders@.len(),
            forall|j: int|
                0 <= j < rows.len() ==> #[trigger] ration_quotas(rows, a, req)[j] <= rows[j].quantity@,
            k <= indexes.len(),
            allocations.len() == k,
            forall|j: int| 0 <= j < k ==> allocations@[j] == #[trigger] ration_allocations(rows, a, req)[j],
        decreases indexes.len() - k,
    {
        let rank = rank_of(&keys, k);
        let order = orders[indexes[k]];
        proof {
            assert(rows[k as int] == order);
            assert(ration_quotas(rows, a, req)[k as int] == floors@[k as int] + if rank < leftover {
                1int
            } else {
                0int
            });
            assert(ration_quotas(rows, a, req)[k as int] <= order.quantity@);
        }
        let quota = if (rank as u64) < leftover {
            floors[k] + 1
        } else {
            floors[k]
        };
        proof {
            assert(rows[k as int] == order);
            assert(quota as int == ration_quotas(rows, a, req)[k as int]);
        }
        allocations.push(
            SurvivalRationingAllocation {
                cohort: order.buyer,
                requested: order.quantity,
                quota: QuantityMilli::new(quota),
            },
        );
        k = k + 1;
    }
    proof {
        assert(allocations@ =~= ration_allocations(rows, a, req));
    }
    SurvivalRationingOutcome {
        country,
        region,
        good,
        requested: QuantityMilli::new(requested),
        available: QuantityMilli::new(available),
        allocations,
    }
}

/// The total requested by the orders at `positions`, or `None` where it does not fit `u64`.
fn requested_sum(orders: &Vec<MarketOrder>, positions: &Vec<usize>) -> (r: Option<u64>)
    requires
        forall|j: int| 0 <= j < positions@.len() ==> #[trigger] positions@[j] < orders@.len(),
    ensures
        r is None <==> requested_total(rows_at(orders@, positions@.map_values(|x: usize| x as int))) > u64::MAX,
        r matches Some(t) ==> t as int == requested_total(rows_at(orders@, positions@.map_values(|x: usize| x as int))),
{
    let ghost rows = rows_at(orders@, positions@.map_values(|x: usize| x as int));
    let ghost qs = row_quantities(rows);
    proof {
        lemma_nonneg_sum_facts(qs);
    }
    let mut total: u64 = 0;
    let mut i: usize = 0;
    while i < positions.len()
        invariant
            rows == rows_at(orders@, positions@.map_values(|x: usize| x as int)),
            qs == row_quantities(rows),
            forall|j: int| 0 <= j < positions@.len() ==> #[trigger] positions@[j] < orders@.len(),
            forall|m: int| 0 <= m <= qs.len() ==> 0 <= #[trigger] seq_sum(qs.take(m)) <= seq_sum(qs),
            i <= positions.len(),
            total as int == seq_sum(qs.take(i as int)),
        decreases positions.len() - i,
    {
        let q = orders[positions[i]].quantity.get();
        proof {
            assert(qs.take(i + 1).drop_last() =~= qs.take(i as int));
            assert(qs[i as int] == q);
        }
        match total.checked_add(q) {
            Some(t) => {
                total = t;
            },
            None => {
                proof {
                    assert(seq_sum(qs.take(i + 1)) <= seq_sum(qs));
                }
                return None;
            },
        }
        i = i + 1;
    }
    proof {
        assert(qs.take(qs.len() as int) =~= qs);
    }
    Some(total)
}

/// The first position at or after `i` of a survival order of `cohort` in market `key`,
/// or the number of orders where there is none.
pub open spec fn first_order_of(orders: Seq<MarketOrder>, cohort: CohortId, key: (u32, u32), i: int) -> int
    decreases orders.len() - i,
{
    if i < 0 || i >= orders.len() {
        orders.len() as int
    } else if orders[i].buyer == cohort && in_survival_group(orders[i], key) {
        i
    } else {
        first_order_of(orders, cohort, key, i + 1)
    }
}

/// The first matching order lies no later than any matching order after `i`.
pub proof fn lemma_first_order_found(orders: Seq<MarketOrder>, cohort: CohortId, key: (u32, u32), i: int, t: int)
    requires
        0 <= i <= t < orders.len(),
        orders[t].buyer == cohort,
        in_survival_group(orders[t], key),
    ensures
        i <= first_order_of(orders, cohort, key, i) <= t,
        orders[first_order_of(orders, cohort, key, i)].buyer == cohort,
        in_survival_group(orders[first_order_of(orders, cohort, key, i)], key),
    decreases t - i,
{
    if !(orders[i].buyer == cohort && in_survival_group(orders[i], key)) {
        lemma_first_order_found(orders, cohort, key, i + 1, t);
    }
}

/// The position of the first survival order of `cohort` in market `key`.
fn first_order_position(orders: &Vec<MarketOrder>, cohort: CohortId, key: (u32, u32)) -> (r: usize)
    ensures
        r as int == first_order_of(orders@, cohort, key, 0),
{
    let mut i: usize = 0;
    while i < orders.len()
        invariant
            i <= orders.len(),
            first_order_of(orders@, cohort, key, 0) == first_order_of(orders@, cohort, key, i as int),
        decreases orders.len() - i,
    {
        let o = orders[i];
        if o.buyer == cohort && o.tier == NeedTier::Survival && o.region.get() == key.0 && o.good.get() == key.1 {
            return i;
        }
        i = i + 1;
    }
    i
}

/// A planned rationing: the country whose policy asks for it, its market (region, good),
/// the positions of its orders, and the quantities available and requested.
pub struct RationPlan {
    pub country: CountryId,
    pub key: (u32, u32),
    pub positions: Seq<int>,
    pub available: int,
    pub requested: int,
}

/// What one survival market calls for.
pub enum RationStep {
    Skip,
    Plan(RationPlan),
    Fail(WorldError),
}

/// The decision for survival market `key`: an unregistered region fails; a market whose
/// country does not ration, whose demand is nil or whose supply covers it is left alone;
/// a total request beyond `u64` fails; any other market is rationed.
pub open spec fn ration_step(w: WorldView, orders: Seq<MarketOrder>, offers: Seq<MarketOffer>, key: (u32, u32)) -> RationStep {
    let positions = group_positions(orders, key, orders.len() as int);
    let requested = requested_total(rows_at(orders, positions));
    let available = offer_supply(offers, key);
    if !w.regions.contains_key(key.0) {
        RationStep::Fail(WorldError::UnknownRegion(RegionId(key.0)))
    } else if policy_of(w, w.regions[key.0].country).physical_shortage_strategy
        != PhysicalShortageStrategy::ProportionalRationing {
        RationStep::Skip
    } else if requested > u64::MAX {
        RationStep::Fail(WorldError::ArithmeticOverflow("rationing requested quantity"))
    } else if requested == 0 || available >= requested {
        RationStep::Skip
    } else {
        RationStep::Plan(
            RationPlan { country: w.regions[key.0].country, key, positions, available, requested },
        )
    }
}

/// The plans of the markets `keys`, in order, or the first failure.
pub open spec fn ration_plans(
    w: WorldView,
    orders: Seq<MarketOrder>,
    offers: Seq<MarketOffer>,
    keys: Seq<(u32, u32)>,
) -> Result<Seq<RationPlan>, WorldError>
    decreases keys.len(),
{
    if keys.len() == 0 {
        Ok(Seq::empty())
    } else {
        match ration_plans(w, orders, offers, keys.drop_last()) {
            Err(e) => Err(e),
            Ok(ps) => match ration_step(w, orders, offers, keys.last()) {
                RationStep::Skip => Ok(ps),
                RationStep::Plan(p) => Ok(ps.push(p)),
                RationStep::Fail(e) => Err(e),
            },
        }
    }
}

/// Once a market's plan fails, the plans of all markets fail with the same error.
pub proof fn lemma_ration_failure_sticks(
    w: WorldView,
    orders: Seq<MarketOrder>,
    offers: Seq<MarketOffer>,
    keys: Seq<(u32, u32)>,
    k: int,
)
    requires
        0 <= k <= keys.len(),
        ration_plans(w, orders, offers, keys.take(k)) is Err,
    ensures
        ration_plans(w, orders, offers, keys) == ration_plans(w, orders, offers, keys.take(k)),
    decreases keys.len() - k,
{
    if k < keys.len() {
        assert(keys.take(k + 1).drop_last() =~= keys.take(k));
        lemma_ration_failure_sticks(w, orders, offers, keys, k + 1);
    } else {
        assert(keys.take(k) =~= keys);
    }
}

/// The outcome of survival rationing: an overflowing supply fails first; otherwise the
/// plans of the survival markets in increasing (region, good) order, or their first failure.
pub open spec fn rationing_result(w: WorldView, orders: Seq<MarketOrder>, offers: Seq<MarketOffer>) -> Result<
    Seq<RationPlan>,
    WorldError,
> {
    if supply_overflows(offers) {
        Err(WorldError::ArithmeticOverflow("rationable survival supply"))
    } else {
        ration_plans(w, orders, offers, pair_key_order(survival_groups(orders)))
    }
}

/// The allocations of a plan over the orders it was made from.
pub open spec fn plan_allocations(base: Seq<MarketOrder>, p: RationPlan) -> Seq<SurvivalRationingAllocation> {
    ration_allocations(rows_at(base, p.positions), p.available, p.requested)
}

/// Whether an outcome reports a plan.
pub open spec fn reports_plan(o: SurvivalRationingOutcome, p: RationPlan, base: Seq<MarketOrder>) -> bool {
    &&& o.country == p.country
    &&& o.region@ == p.key.0
    &&& o.good@ == p.key.1
    &&& o.requested@ == p.requested
    &&& o.available@ == p.available
    &&& o.allocations@ == plan_allocations(base, p)
}

/// The orders with one allocation's quota written into the first survival order of its
/// cohort in market `key`.
pub open spec fn with_quota(orders: Seq<MarketOrder>, key: (u32, u32), a: SurvivalRationingAllocation) -> Seq<MarketOrder> {
    let j = first_order_of(orders, a.cohort, key, 0);
    orders.update(j, MarketOrder { quantity: a.quota, ..orders[j] })
}

/// The orders with the quotas of `allocs` written in turn.
pub open spec fn with_quotas(orders: Seq<MarketOrder>, key: (u32, u32), allocs: Seq<SurvivalRationingAllocation>) -> Seq<
    MarketOrder,
>
    decreases allocs.len(),
{
    if allocs.len() == 0 {
        orders
    } else {
        with_quota(with_quotas(orders, key, allocs.drop_last()), key, allocs.last())
    }
}

/// The orders with the quotas of every plan written in turn, each plan's allocations
/// taken over the orders `base` it was made from.
pub open spec fn rationed_orders(orders: Seq<MarketOrder>, base: Seq<MarketOrder>, ps: Seq<RationPlan>) -> Seq<
    MarketOrder,
>
    decreases ps.len(),
{
    if ps.len() == 0 {
        orders
    } else {
        with_quotas(rationed_orders(orders, base, ps.drop_last()), ps.last().key, plan_allocations(base, ps.last()))
    }
}

/// The record of one applied rationing.
pub open spec fn ration_event(date: SimDate, p: RationPlan) -> EventEnvelope {
    EventEnvelope {
        date,
        event: DomainEvent::SurvivalRationingApplied {
            country: p.country,
            region: RegionId(p.key.0),
            good: GoodId(p.key.1),
            requested: QuantityMilli::spec_from(p.requested as u64),
            available: QuantityMilli::spec_from(p.available as u64),
            cohorts: p.positions.len() as u64,
        },
    }
}

/// The records of the applied rationings, in order.
pub open spec fn ration_events(date: SimDate, ps: Seq<RationPlan>) -> Seq<EventEnvelope> {
    Seq::new(ps.len(), |i: int| ration_event(date, ps[i]))
}

/// Two order lists that differ at most in quantities.
pub open spec fn same_markets(a: Seq<MarketOrder>, b: Seq<MarketOrder>) -> bool {
    &&& a.len() == b.len()
    &&& forall|i: int|
        0 <= i < a.len() ==> (#[trigger] a[i]).buyer == b[i].buyer && a[i].tier == b[i].tier && a[i].region
            == b[i].region && a[i].good == b[i].good
}

/// Every plan comes from its market's step: its positions are the market's survival
/// orders, and it rations a supply short of a representable demand.
pub proof fn lemma_plans_ration_short_markets(
    w: WorldView,
    orders: Seq<MarketOrder>,
    offers: Seq<MarketOffer>,
    keys: Seq<(u32, u32)>,
)
    requires
        ration_plans(w, orders, offers, keys) is Ok,
    ensures
        forall|i: int|
            0 <= i < ration_plans(w, orders, offers, keys)->Ok_0.len() ==> {
                let p = #[trigger] ration_plans(w, orders, offers, keys)->Ok_0[i];
                &&& p.positions == group_positions(orders, p.key, orders.len() as int)
                &&& p.requested == requested_total(rows_at(orders, p.positions))
                &&& p.available == offer_supply(offers, p.key)
                &&& 0 <= p.available < p.requested <= u64::MAX
            },
    decreases keys.len(),
{
    if keys.len() > 0 {
        lemma_plans_ration_short_markets(w, orders, offers, keys.drop_last());
        let key = keys.last();
        let positions = group_positions(orders, key, orders.len() as int);
        let offered = offer_supply(offers, key);
        assert(0 <= offered) by {
            lemma_offer_supply_grows(offers, key, 0);
        }
    }
}

/// Survival rationing conserves supply: in every market it rations, the quotas add up
/// to exactly the quantity offered there, no quota exceeds what its order asked for, and
/// the market was short (it offered less than was asked).
pub proof fn lemma_rationing_conserves_supply(w: WorldView, orders: Seq<MarketOrder>, offers: Seq<MarketOffer>)
    requires
        rationing_result(w, orders, offers) is Ok,
    ensures
        forall|i: int|
            0 <= i < rationing_result(w, orders, offers)->Ok_0.len() ==> {
                let p = #[trigger] rationing_result(w, orders, offers)->Ok_0[i];
                let allocs = plan_allocations(orders, p);
                &&& seq_sum(Seq::new(allocs.len(), |j: int| allocs[j].quota@ as int)) == offer_supply(offers, p.key)
                &&& forall|j: int| 0 <= j < allocs.len() ==> #[trigger] allocs[j].quota@ <= allocs[j].requested@
                &&& offer_supply(offers, p.key) < requested_total(rows_at(orders, p.positions))
            },
{
    let keys = pair_key_order(survival_groups(orders));
    lemma_plans_ration_short_markets(w, orders, offers, keys);
    let ps = rationing_result(w, orders, offers)->Ok_0;
    assert forall|i: int| 0 <= i < ps.len() implies {
        let p = #[trigger] ps[i];
        let allocs = plan_allocations(orders, p);
        &&& seq_sum(Seq::new(allocs.len(), |j: int| allocs[j].quota@ as int)) == offer_supply(offers, p.key)
        &&& forall|j: int| 0 <= j < allocs.len() ==> #[trigger] allocs[j].quota@ <= allocs[j].requested@
        &&& offer_supply(offers, p.key) < requested_total(rows_at(orders, p.positions))
    } by {
        let p = ps[i];
        let rows = rows_at(orders, p.positions);
        let allocs = plan_allocations(orders, p);
        lemma_rations_share_the_supply(rows, p.available);
        let quotas = ration_quotas(rows, p.available, p.requested);
        assert(Seq::new(allocs.len(), |j: int| allocs[j].quota@ as int) =~= quotas);
    }
}

/// What each allocation withholds: the quantity asked for beyond its quota.
pub open spec fn withheld_of(allocs: Seq<SurvivalRationingAllocation>) -> Seq<int> {
    Seq::new(allocs.len(), |j: int| allocs[j].requested@ - allocs[j].quota@)
}

/// The quantity stored under `key`, zero where none is stored.
pub open spec fn stored_quantity(m: Map<(u32, u32, u32), QuantityMilli>, key: (u32, u32, u32)) -> int {
    if m.contains_key(key) {
        m[key]@ as int
    } else {
        0
    }
}

/// The unmet-demand ledger after adding back what the first `n` allocations withheld,
/// each under its cohort, the good and the survival tier; stops at the first overflow of
/// the running withheld total or of a ledger row.
pub open spec fn unmet_restored(
    unmet: Map<(u32, u32, u32), QuantityMilli>,
    good: GoodId,
    allocs: Seq<SurvivalRationingAllocation>,
    n: int,
) -> (Map<(u32, u32, u32), QuantityMilli>, Option<WorldError>)
    decreases n,
{
    if n <= 0 {
        (unmet, None)
    } else {
        let (m, e) = unmet_restored(unmet, good, allocs, n - 1);
        if e is Some {
            (m, e)
        } else {
            let a = allocs[n - 1];
            let k = (a.cohort@, good@, 0u32);
            let sum = stored_quantity(m, k) + withheld_of(allocs)[n - 1];
            if seq_sum(withheld_of(allocs).take(n)) > u64::MAX {
                (m, Some(WorldError::ArithmeticOverflow("withheld ration demand")))
            } else if sum > u64::MAX {
                (m, Some(WorldError::ArithmeticOverflow("rationed unmet demand")))
            } else {
                (m.insert(k, QuantityMilli::spec_from(sum as u64)), None)
            }
        }
    }
}

/// The offer outcomes after adding `total` to the unmet market demand of the first `n`
/// outcomes in market (region, good); stops at the first overflow.
pub open spec fn market_demand_restored(
    offers: Seq<MarketOfferOutcome>,
    region: RegionId,
    good: GoodId,
    total: int,
    n: int,
) -> (Seq<MarketOfferOutcome>, Option<WorldError>)
    decreases n,
{
    if n <= 0 {
        (offers, None)
    } else {
        let (s, e) = market_demand_restored(offers, region, good, total, n - 1);
        if e is Some {
            (s, e)
        } else if s[n - 1].region == region && s[n - 1].good == good {
            if s[n - 1].unmet_market_demand@ + total > u64::MAX {
                (s, Some(WorldError::ArithmeticOverflow("rationed market demand")))
            } else {
                (
                    s.update(
                        n - 1,
                        MarketOfferOutcome {
                            unmet_market_demand: QuantityMilli::spec_from(
                                (s[n - 1].unmet_market_demand@ + total) as u64,
                            ),
                            ..s[n - 1]
                        },
                    ),
                    None,
                )
            }
        } else {
            (s, None)
        }
    }
}

/// The unmet-demand ledger and offer outcomes of a clearing, and whether restoring failed.
pub struct RestoreState {
    pub unmet: Map<(u32, u32, u32), QuantityMilli>,
    pub offers: Seq<MarketOfferOutcome>,
    pub failed: Option<WorldError>,
}

/// The state after restoring one rationing outcome: every allocation's withheld demand
/// goes back to its cohort's ledger row, then the outcome's whole withheld total to each
/// offer outcome of its market.
pub open spec fn restore_one(st: RestoreState, o: SurvivalRationingOutcome) -> RestoreState {
    let allocs = o.allocations@;
    let (m, e) = unmet_restored(st.unmet, o.good, allocs, allocs.len() as int);
    if e is Some {
        RestoreState { unmet: m, offers: st.offers, failed: e }
    } else {
        let (s, e2) = market_demand_restored(
            st.offers,
            o.region,
            o.good,
            seq_sum(withheld_of(allocs)),
            st.offers.len() as int,
        );
        RestoreState { unmet: m, offers: s, failed: e2 }
    }
}

/// The state after restoring the outcomes in order, stopping at the first failure.
pub open spec fn restore_all(st: RestoreState, outcomes: Seq<SurvivalRationingOutcome>) -> RestoreState
    decreases outcomes.len(),
{
    if outcomes.len() == 0 {
        st
    } else {
        let prev = restore_all(st, outcomes.drop_last());
        if prev.failed is Some {
            prev
        } else {
            restore_one(prev, outcomes.last())
        }
    }
}

/// Every allocation's quota is at most what it asked for.
pub open spec fn quotas_within_requests(outcomes: Seq<SurvivalRationingOutcome>) -> bool {
    forall|i: int, j: int|
        0 <= i < outcomes.len() && 0 <= j < outcomes[i].allocations@.len() ==> (#[trigger] outcomes[i].allocations@[j]).quota@
            <= outcomes[i].allocations@[j].requested@
}

/// Restoring withholds, in each rationed market, exactly the shortfall: the demand asked
/// for beyond the supply.
pub proof fn lemma_rationing_withholds_the_shortfall(w: WorldView, orders: Seq<MarketOrder>, offers: Seq<MarketOffer>)
    requires
        rationing_result(w, orders, offers) is Ok,
    ensures
        forall|i: int|
            0 <= i < rationing_result(w, orders, offers)->Ok_0.len() ==> {
                let p = #[trigger] rationing_result(w, orders, offers)->Ok_0[i];
                seq_sum(withheld_of(plan_allocations(orders, p))) == requested_total(rows_at(orders, p.positions))
                    - offer_supply(offers, p.key)
            },
{
    let keys = pair_key_order(survival_groups(orders));
    lemma_plans_ration_short_markets(w, orders, offers, keys);
    lemma_rationing_conserves_supply(w, orders, offers);
    let ps = rationing_result(w, orders, offers)->Ok_0;
    assert forall|i: int| 0 <= i < ps.len() implies {
        let p = #[trigger] ps[i];
        seq_sum(withheld_of(plan_allocations(orders, p))) == requested_total(rows_at(orders, p.positions))
            - offer_supply(offers, p.key)
    } by {
        let p = ps[i];
        let rows = rows_at(orders, p.positions);
        let allocs = plan_allocations(orders, p);
        let quotas = Seq::new(allocs.len(), |j: int| allocs[j].quota@ as int);
        let negq = Seq::new(allocs.len(), |j: int| -(allocs[j].quota@ as int));
        let zeros = Seq::new(allocs.len(), |j: int| 0int);
        lemma_sum_affine(quotas, zeros, negq, -1);
        lemma_sum_bounds(zeros, 0, 0);
        assert(row_quantities(rows) =~= Seq::new(allocs.len(), |j: int| allocs[j].requested@ as int));
        lemma_sum_affine(row_quantities(rows), negq, withheld_of(allocs), 1);
    }
}

/// Once restoring the unmet ledger fails, later allocations change nothing.
pub proof fn lemma_unmet_failure_sticks(
    unmet: Map<(u32, u32, u32), QuantityMilli>,
    good: GoodId,
    allocs: Seq<SurvivalRationingAllocation>,
    k: int,
    n: int,
)
    requires
        0 <= k <= n,
        unmet_restored(unmet, good, allocs, k).1 is Some,
    ensures
        unmet_restored(unmet, good, allocs, n) == unmet_restored(unmet, good, allocs, k),
    decreases n - k,
{
    if k < n {
        lemma_unmet_failure_sticks(unmet, good, allocs, k, n - 1);
    }
}

/// Once restoring market demand fails, later offer outcomes change nothing.
pub proof fn lemma_market_failure_sticks(
    offers: Seq<MarketOfferOutcome>,
    region: RegionId,
    good: GoodId,
    total: int,
    k: int,
    n: int,
)
    requires
        0 <= k <= n,
        market_demand_restored(offers, region, good, total, k).1 is Some,
    ensures
        market_demand_restored(offers, region, good, total, n) == market_demand_restored(offers, region, good, total, k),
    decreases n - k,
{
    if k < n {
        lemma_market_failure_sticks(offers, region, good, total, k, n - 1);
    }
}

/// Once restoring fails, later outcomes change nothing.
pub proof fn lemma_restore_failure_sticks(st: RestoreState, outcomes: Seq<SurvivalRationingOutcome>, k: int)
    requires
        0 <= k <= outcomes.len(),
        restore_all(st, outcomes.take(k)).failed is Some,
    ensures
        restore_all(st, outcomes) == restore_all(st, outcomes.take(k)),
    decreases outcomes.len() - k,
{
    if k < outcomes.len() {
        assert(outcomes.take(k + 1).drop_last() =~= outcomes.take(k));
        lemma_restore_failure_sticks(st, outcomes, k + 1);
    } else {
        assert(outcomes.take(k) =~= outcomes);
    }
}

impl World {
    /// Applies proportional survival quotas where a country's stored policy replaces
    /// canonical market priority: in every survival market (region, good) whose demand
    /// exceeds its supply, each order's quantity becomes its proportional quota, and the
    /// rationing is recorded. Fails, changing neither the orders nor the world, on an
    /// unregistered region or a quantity that overflows.
    pub fn apply_survival_rationing(&mut self, orders: &mut Vec<MarketOrder>, offers: &[MarketOffer]) -> (r: Result<
        Vec<SurvivalRationingOutcome>,
        WorldError,
    >)
        ensures
            rationing_result(old(self)@, old(orders)@, offers@) matches Err(e) ==> r == Err::<
                Vec<SurvivalRationingOutcome>,
                WorldError,
            >(e) && final(self)@ == old(self)@ && final(orders)@ == old(orders)@,
            rationing_result(old(self)@, old(orders)@, offers@) matches Ok(ps) ==> (r matches Ok(os)
                && os@.len() == ps.len() && (forall|i: int|
                0 <= i < ps.len() ==> reports_plan(#[trigger] os@[i], ps[i], old(orders)@)) && final(orders)@
                == rationed_orders(old(orders)@, old(orders)@, ps) && final(self)@ == (WorldView {
                events: old(self)@.events + ration_events(old(self)@.date, ps),
                ..old(self)@
            })),
    {
        let supply = match survival_supply(offers) {
            Ok(m) => m,
            Err(e) => {
                return Err(e);
            },
        };
        let groups = survival_groups_of(orders);
        let keys = pair_keys_in_order(&groups);
        let ghost w = self@;
        let ghost base = orders@;
        proof {
            lemma_pair_key_order_same_dom(groups@, survival_groups(base));
            assert(keys@ == pair_key_order(survival_groups(base)));
        }
        let mut planned: Vec<SurvivalRationingOutcome> = Vec::new();
        let ghost mut plans: Seq<RationPlan> = Seq::empty();
        let mut i: usize = 0;
        while i < keys.len()
            invariant
                w == self@,
                base == orders@,
                w == old(self)@,
                base == old(orders)@,
                keys@ == pair_key_order(survival_groups(base)),
                !supply_overflows(offers@),
                forall|key: (u32, u32)| #[trigger] stored_or_zero(supply@, key) == offer_supply(offers@, key),
                groups@.dom() == survival_groups(base).dom(),
                forall|key: (u32, u32)|
                    #[trigger] groups@.contains_key(key) ==> groups@[key]@.map_values(|x: usize| x as int)
                        == group_positions(base, key, base.len() as int),
                forall|k: int| 0 <= k < keys@.len() ==> groups@.contains_key(#[trigger] keys@[k]),
                i <= keys.len(),
                ration_plans(w, base, offers@, keys@.take(i as int)) == Ok::<Seq<RationPlan>, WorldError>(plans),
                planned@.len() == plans.len(),
                forall|j: int| 0 <= j < plans.len() ==> reports_plan(#[trigger] planned@[j], plans[j], base),
                forall|j: int|
                    0 <= j < plans.len() ==> (#[trigger] plans[j]).positions == group_positions(
                        base,
                        plans[j].key,
                        base.len() as int,
                    ),
            decreases keys.len() - i,
        {
            let key = keys[i];
            let positions = groups.get(&key).unwrap();
            proof {
                assert(keys@.take(i + 1).drop_last() =~= keys@.take(i as int));
                assert(keys@.take(i + 1).last() == key);
                assert(groups@.contains_key(key));
                lemma_group_positions(base, key, base.len() as int);
                assert forall|j: int| 0 <= j < positions@.len() implies #[trigger] positions@[j] < orders@.len() by {
                    assert(positions@.map_values(|x: usize| x as int)[j] == positions@[j] as int);
                }
            }
            let ghost gp = group_positions(base, key, base.len() as int);
            let country = match self.regions.get(&key.0) {
                Some(region) => region.country,
                None => {
                    let e = WorldError::UnknownRegion(RegionId::new(key.0));
                    proof {
                        assert(ration_step(w, base, offers@, key) == RationStep::Fail(e));
                        lemma_ration_failure_sticks(w, base, offers@, keys@, i + 1);
                    }
                    return Err(e);
                },
            };
            let policy = match self.government_emergency_policies.get(&country.get()) {
                Some(p) => *p,
                None => GovernmentEmergencyPolicy::default(),
            };
            if policy.physical_shortage_strategy == PhysicalShortageStrategy::ProportionalRationing {
                let requested = match requested_sum(orders, positions) {
                    Some(t) => t,
                    None => {
                        let e = WorldError::ArithmeticOverflow("rationing requested quantity");
                        proof {
                            assert(positions@.map_values(|x: usize| x as int) == gp);
                            assert(ration_step(w, base, offers@, key) == RationStep::Fail(e));
                            lemma_ration_failure_sticks(w, base, offers@, keys@, i + 1);
                        }
                        return Err(e);
                    },
                };
                let available: u64 = match supply.get(&key) {
                    Some(v) => *v,
                    None => 0,
                };
                proof {
                    assert(available as int == stored_or_zero(supply@, key));
                    assert(positions@.map_values(|x: usize| x as int) == gp);
                }
                if requested != 0 && available < requested {
                    let outcome = plan_group(
                        orders,
                        positions,
                        country,
                        RegionId::new(key.0),
                        GoodId::new(key.1),
                        available,
                        requested,
                    );
                    planned.push(outcome);
                    proof {
                        let p = RationPlan {
                            country,
                            key,
                            positions: gp,
                            available: available as int,
                            requested: requested as int,
                        };
                        assert(ration_step(w, base, offers@, key) == RationStep::Plan(p));
                        plans = plans.push(p);
                        assert(reports_plan(planned@[plans.len() - 1], p, base));
                    }
                }
            }
            i = i + 1;
        }
        proof {
            assert(keys@.take(keys@.len() as int) =~= keys@);
        }
        let mut oi: usize = 0;
        while oi < planned.len()
            invariant
                w == old(self)@,
                base == old(orders)@,
                keys@ == pair_key_order(survival_groups(base)),
                !supply_overflows(offers@),
                ration_plans(w, base, offers@, keys@) == Ok::<Seq<RationPlan>, WorldError>(plans),
                planned@.len() == plans.len(),
                forall|j: int| 0 <= j < plans.len() ==> reports_plan(#[trigger] planned@[j], plans[j], base),
                forall|j: int|
                    0 <= j < plans.len() ==> (#[trigger] plans[j]).positions == group_positions(
                        base,
                        plans[j].key,
                        base.len() as int,
                    ),
                oi <= planned.len(),
                orders@ == rationed_orders(base, base, plans.take(oi as int)),
                same_markets(orders@, base),
                self@ == (WorldView { events: w.events + ration_events(w.date, plans.take(oi as int)), ..w }),
            decreases planned.len() - oi,
        {
            let outcome = &planned[oi];
            let key = (outcome.region.get(), outcome.good.get());
            let ghost p = plans[oi as int];
            let ghost start = orders@;
            proof {
                assert(reports_plan(planned@[oi as int], p, base));
                assert(p.key == key);
                lemma_group_positions(base, key, base.len() as int);
            }
            let mut ai: usize = 0;
            while ai < outcome.allocations.len()
                invariant
                    outcome.allocations@ == plan_allocations(base, p),
                    p.positions == group_positions(base, key, base.len() as int),
                    forall|j: int|
                        0 <= j < p.positions.len() ==> 0 <= #[trigger] p.positions[j] < base.len()
                            && in_survival_group(base[p.positions[j]], key),
                    ai <= outcome.allocations.len(),
                    orders@ == with_quotas(start, key, plan_allocations(base, p).take(ai as int)),
                    same_markets(orders@, base),
                decreases outcome.allocations.len() - ai,
            {
                let a = outcome.allocations[ai];
                let ghost t = p.positions[ai as int];
                proof {
                    assert(a == plan_allocations(base, p)[ai as int]);
                    assert(a.cohort == base[t].buyer);
                    assert(orders@[t].buyer == a.cohort && in_survival_group(orders@[t], key));
                    lemma_first_order_found(orders@, a.cohort, key, 0, t);
                    assert(plan_allocations(base, p).take(ai + 1).drop_last() =~= plan_allocations(base, p).take(
                        ai as int,
                    ));
                }
                let j = first_order_position(orders, a.cohort, key);
                let o = orders[j];
                orders.set(j, MarketOrder { quantity: a.quota, ..o });
                proof {
                    assert(orders@ == with_quota(with_quotas(start, key, plan_allocations(base, p).take(ai as int)), key, a));
                }
                ai = ai + 1;
            }
            proof {
                assert(plan_allocations(base, p).take(outcome.allocations@.len() as int) =~= plan_allocations(base, p));
                assert(plans.take(oi + 1).drop_last() =~= plans.take(oi as int));
            }
            self.events.append(
                self.date,
                DomainEvent::SurvivalRationingApplied {
                    country: outcome.country,
                    region: outcome.region,
                    good: outcome.good,
                    requested: outcome.requested,
                    available: outcome.available,
                    cohorts: outcome.allocations.len() as u64,
                },
            );
            proof {
                assert(ration_events(w.date, plans.take(oi + 1)) =~= ration_events(w.date, plans.take(oi as int)).push(
                    ration_event(w.date, p),
                ));
                assert(self@.events =~= w.events + ration_events(w.date, plans.take(oi + 1)));
            }
            oi = oi + 1;
        }
        proof {
            assert(plans.take(plans.len() as int) =~= plans);
        }
        Ok(planned)
    }

    /// Gives rationed-away demand back to a clearing made under quotas: each allocation's
    /// withheld quantity goes to its cohort's unmet survival row, and each rationed market's
    /// withheld total to the unmet demand of every offer outcome in that market. Stops at
    /// the first overflow, keeping what was restored before it.
    pub fn restore_rationed_unmet_demand(
        &self,
        clearing: &mut MarketClearing,
        outcomes: &[SurvivalRationingOutcome],
    ) -> (r: Result<(), WorldError>)
        requires
            quotas_within_requests(outcomes@),
        ensures
            ({
                let fin = restore_all(
                    RestoreState {
                        unmet: old(clearing).unmet@,
                        offers: old(clearing).offer_outcomes@,
                        failed: None,
                    },
                    outcomes@,
                );
                &&& final(clearing).unmet@ == fin.unmet
                &&& final(clearing).offer_outcomes@ == fin.offers
                &&& final(clearing).fills == old(clearing).fills
                &&& final(clearing).constrained_routes == old(clearing).constrained_routes
                &&& r == match fin.failed {
                    Some(e) => Err::<(), WorldError>(e),
                    None => Ok(()),
                }
            }),
    {
        let ghost st0 = RestoreState {
            unmet: clearing.unmet@,
            offers: clearing.offer_outcomes@,
            failed: None,
        };
        let mut oi: usize = 0;
        while oi < outcomes.len()
            invariant
                st0 == (RestoreState {
                    unmet: old(clearing).unmet@,
                    offers: old(clearing).offer_outcomes@,
                    failed: None,
                }),
                quotas_within_requests(outcomes@),
                oi <= outcomes.len(),
                restore_all(st0, outcomes@.take(oi as int)) == (RestoreState {
                    unmet: clearing.unmet@,
                    offers: clearing.offer_outcomes@,
                    failed: None,
                }),
                clearing.fills == old(clearing).fills,
                clearing.constrained_routes == old(clearing).constrained_routes,
            decreases outcomes.len() - oi,
        {
            let outcome = &outcomes[oi];
            let ghost allocs = outcome.allocations@;
            let ghost u0 = clearing.unmet@;
            let ghost prev = restore_all(st0, outcomes@.take(oi as int));
            proof {
                assert(outcomes@.take(oi + 1).drop_last() =~= outcomes@.take(oi as int));
                assert(outcomes@.take(oi + 1).last() == *outcome);
                assert(restore_all(st0, outcomes@.take(oi + 1)) == restore_one(prev, *outcome));
            }
            let mut withheld_total: u64 = 0;
            let mut ai: usize = 0;
            while ai < outcome.allocations.len()
                invariant
                    allocs == outcome.allocations@,
                    quotas_within_requests(outcomes@),
                    st0 == (RestoreState {
                        unmet: old(clearing).unmet@,
                        offers: old(clearing).offer_outcomes@,
                        failed: None,
                    }),
                    restore_all(st0, outcomes@.take(oi + 1)) == restore_one(prev, *outcome),
                    prev.unmet == u0,
                    prev.failed is None,
                    oi < outcomes@.len(),
                    *outcome == outcomes@[oi as int],
                    ai <= allocs.len(),
                    unmet_restored(u0, outcome.good, allocs, ai as int) == (
                        clearing.unmet@,
                        None::<WorldError>,
                    ),
                    withheld_total as int == seq_sum(withheld_of(allocs).take(ai as int)),
                    clearing.offer_outcomes@ == prev.offers,
                    clearing.fills == old(clearing).fills,
                    clearing.constrained_routes == old(clearing).constrained_routes,
                decreases allocs.len() - ai,
            {
                let a = outcome.allocations[ai];
                proof {
                    assert(outcomes@[oi as int].allocations@[ai as int] == a);
                    assert(withheld_of(allocs).take(ai + 1).drop_last() =~= withheld_of(allocs).take(ai as int));
                }
                let withheld: u64 = a.requested.get() - a.quota.get();
                withheld_total = match withheld_total.checked_add(withheld) {
                    Some(t) => t,
                    None => {
                        proof {
                            lemma_unmet_failure_sticks(u0, outcome.good, allocs, ai + 1, allocs.len() as int);
                            lemma_restore_failure_sticks(st0, outcomes@, oi + 1);
                        }
                        return Err(WorldError::ArithmeticOverflow("withheld ration demand"));
                    },
                };
                let key = (a.cohort.get(), outcome.good.get(), 0u32);
                let current: u64 = match clearing.unmet.get(&key) {
                    Some(q) => q.get(),
                    None => 0,
                };
                proof {
                    assert(current as int == stored_quantity(clearing.unmet@, key));
                }
                match current.checked_add(withheld) {
                    Some(v) => {
                        clearing.unmet.insert(key, QuantityMilli::new(v));
                    },
                    None => {
                        proof {
                            lemma_unmet_failure_sticks(u0, outcome.good, allocs, ai + 1, allocs.len() as int);
                            lemma_restore_failure_sticks(st0, outcomes@, oi + 1);
                        }
                        return Err(WorldError::ArithmeticOverflow("rationed unmet demand"));
                    },
                }
                ai = ai + 1;
            }
            proof {
                assert(withheld_of(allocs).take(allocs.len() as int) =~= withheld_of(allocs));
            }
            let ghost o0 = clearing.offer_outcomes@;
            let mut k: usize = 0;
            while k < clearing.offer_outcomes.len()
                invariant
                    o0 == prev.offers,
                    st0 == (RestoreState {
                        unmet: old(clearing).unmet@,
                        offers: old(clearing).offer_outcomes@,
                        failed: None,
                    }),
                    restore_all(st0, outcomes@.take(oi + 1)) == restore_one(prev, *outcome),
                    prev.unmet == u0,
                    prev.failed is None,
                    oi < outcomes@.len(),
                    *outcome == outcomes@[oi as int],
                    withheld_total as int == seq_sum(withheld_of(allocs)),
                    allocs == outcome.allocations@,
                    unmet_restored(u0, outcome.good, allocs, allocs.len() as int) == (
                        clearing.unmet@,
                        None::<WorldError>,
                    ),
                    k <= clearing.offer_outcomes@.len(),
                    clearing.offer_outcomes@.len() == o0.len(),
                    market_demand_restored(o0, outcome.region, outcome.good, withheld_total as int, k as int) == (
                        clearing.offer_outcomes@,
                        None::<WorldError>,
                    ),
                    clearing.fills == old(clearing).fills,
                    clearing.constrained_routes == old(clearing).constrained_routes,
                decreases clearing.offer_outcomes@.len() - k,
            {
                let o = clearing.offer_outcomes[k];
                if o.region == outcome.region && o.good == outcome.good {
                    match o.unmet_market_demand.get().checked_add(withheld_total) {
                        Some(v) => {
                            clearing.offer_outcomes.set(k, MarketOfferOutcome { unmet_market_demand: QuantityMilli::new(v), ..o });
                        },
                        None => {
                            proof {
                                lemma_market_failure_sticks(
                                    o0,
                                    outcome.region,
                                    outcome.good,
                                    withheld_total as int,
                                    k + 1,
                                    o0.len() as int,
                                );
                                lemma_restore_failure_sticks(st0, outcomes@, oi + 1);
                            }
                            return Err(WorldError::ArithmeticOverflow("rationed market demand"));
                        },
                    }
                }
                k = k + 1;
            }
            oi = oi + 1;
        }
        proof {
            assert(outcomes@.take(outcomes@.len() as int) =~= outcomes@);
        }
        Ok(())
    }
}

} // verus!
