use vstd::prelude::*;

use crate::ids::{GoodId, RegionId};
use crate::value::{Money, QuantityMilli};
use std::collections::BTreeMap;

use crate::market::MarketOfferOutcome;
use crate::ordered::{key_order, keys_in_order, lemma_key_order_same_dom};
use crate::world::{World, WorldError};

verus! {

/// Price response, in basis points, when every unit demanded went unfilled.
pub const SHORTAGE_SENSITIVITY_BPS: i128 = 2_500;
/// Price response, in basis points, when every unit offered went unsold.
pub const SURPLUS_SENSITIVITY_BPS: i128 = 700;
/// Fractional price pressure is carried between months in thousandths of a minor unit.
pub const CARRY_SCALE: i128 = 1_000;

/// Aggregated market outcome for one region and good over the settled month.
/// `offered`, `sold` and `unsold` are summed across sellers; `unmet` is a market-wide
/// figure that every seller repeats, so it is taken as a maximum.
#[derive(Clone, Copy, Debug, Default, PartialEq, Eq, Structural)]
pub struct ObservedMarketPressure {
    pub offered: u64,
    pub sold: u64,
    pub unsold: u64,
    pub unmet: u64,
}

/// Auditable record of one regional reference price revision.
#[derive(Clone, Copy, Debug, PartialEq, Eq, Structural)]
pub struct RegionalPriceAdjustment {
    pub region: RegionId,
    pub good: GoodId,
    pub previous: Money,
    pub price: Money,
    pub offered: QuantityMilli,
    pub sold: QuantityMilli,
    pub unsold: QuantityMilli,
    pub unmet_demand: QuantityMilli,
    pub cost_floor: Money,
    pub floor_binding: bool,
}

/// Integer division rounding toward zero, as Rust's `/` does (for a non-zero divisor).
pub open spec fn tdiv(a: int, b: int) -> int {
    if a == 0 {
        0
    } else if a > 0 && b > 0 {
        a / b
    } else if a < 0 && b < 0 {
        (-a) / (-b)
    } else if a < 0 {
        -((-a) / b)
    } else {
        -(a / (-b))
    }
}

/// `x` clamped into `lo..=hi`.
pub open spec fn clamp(x: int, lo: int, hi: int) -> int {
    if x < lo {
        lo
    } else if x > hi {
        hi
    } else {
        x
    }
}

/// Divides rounding toward zero, for any non-zero divisor.
pub fn trunc_div(a: i128, b: i128) -> (r: i128)
    requires
        b != 0,
        a != i128::MIN,
    ensures
        r == tdiv(a as int, b as int),
{
    proof {
        let x = a as int;
        let d = b as int;
        if x > 0 && d > 0 {
            assert(x / d <= x) by (nonlinear_arith)
                requires
                    x > 0,
                    d > 0,
            ;
        } else if x < 0 && d < 0 {
            assert((-x) / (-d) <= -x) by (nonlinear_arith)
                requires
                    x < 0,
                    d < 0,
            ;
        } else if x < 0 {
            assert(0 <= (-x) / d <= -x) by (nonlinear_arith)
                requires
                    x < 0,
                    d > 0,
            ;
        } else if x > 0 {
            assert(0 <= x / (-d) <= x) by (nonlinear_arith)
                requires
                    x > 0,
                    d < 0,
            ;
        }
    }
    match a.checked_div(b) {
        Some(v) => v,
        None => 0,
    }
}

/// A part of a whole in basis points, at most 10,000; zero for an empty whole.
pub open spec fn share_spec(part: int, whole: int) -> int {
    if whole == 0 {
        0
    } else {
        clamp(part * 10_000 / whole, 0, 10_000)
    }
}

/// Expresses a part of a whole as basis points, saturating at the whole.
pub fn share_bps(part: u64, whole: u64) -> (r: i128)
    ensures
        r == share_spec(part as int, whole as int),
{
    if whole == 0 {
        return 0;
    }
    let s: i128 = part as i128 * 10_000 / whole as i128;
    if s < 0 {
        0
    } else if s > 10_000 {
        10_000
    } else {
        s
    }
}

/// A basis-point move of `value`, in thousandths of a minor unit (rounded toward
/// zero), or an overflow when the scaled product leaves `i128`.
pub open spec fn milli_move_spec(value: int, delta_bps: int) -> Result<int, WorldError> {
    let scaled = value * delta_bps;
    if scaled < i128::MIN || scaled > i128::MAX || scaled * 1_000 < i128::MIN || scaled * 1_000
        > i128::MAX {
        Err(WorldError::ArithmeticOverflow("revised reference price"))
    } else {
        Ok(tdiv(scaled * 1_000, 10_000))
    }
}

/// Expresses a basis-point move of a price in thousandths of a minor unit.
pub fn milli_move(value: i128, delta_bps: i128) -> (r: Result<i128, WorldError>)
    ensures
        match milli_move_spec(value as int, delta_bps as int) {
            Err(e) => r == Err::<i128, WorldError>(e),
            Ok(v) => r matches Ok(x) && x == v,
        },
{
    let scaled = match value.checked_mul(delta_bps) {
        Some(v) => v,
        None => {
            return Err(WorldError::ArithmeticOverflow("revised reference price"));
        },
    };
    let milli = match scaled.checked_mul(CARRY_SCALE) {
        Some(v) => v,
        None => {
            return Err(WorldError::ArithmeticOverflow("revised reference price"));
        },
    };
    Ok(milli / 10_000)
}

/// The basis-point price move a month's pressure calls for: a sold-out market with
/// unfilled demand rises by the shortage share times 25%, a market with unsold offers
/// falls by the unsold share times 7%, and a market that cleared stays.
pub open spec fn price_delta_bps(p: ObservedMarketPressure) -> int {
    let traded = if p.sold + p.unmet > u64::MAX {
        u64::MAX as int
    } else {
        p.sold + p.unmet
    };
    let shortage = if p.unmet > 0 && traded > 0 && p.unsold == 0 {
        share_spec(p.unmet as int, traded)
    } else {
        0
    };
    let glut = if p.unsold > 0 && p.offered > 0 {
        share_spec(p.unsold as int, p.offered as int)
    } else {
        0
    };
    if shortage > 0 {
        2_500 * shortage / 10_000
    } else if glut > 0 {
        -(700 * glut / 10_000)
    } else {
        0
    }
}

/// The revised price (with whether the variable-cost floor bound it, or `None` when
/// no whole minor unit moved) and the carry into the next month; an overflow only when
/// the revised price leaves `i64`.
///
/// The desired move (in thousandths) is the pressure's move, raised to the whole gap
/// when the price is below the floor; it adds to the carry, the whole minor units of
/// the sum move the price; a price that was at or above a positive floor is not cut
/// below it; the price is at least one; and the unexpressed remainder, clamped to less
/// than one minor unit either way, is carried.
pub open spec fn revised_price_spec(
    previous: int,
    cost_floor: int,
    pressure: ObservedMarketPressure,
    carry: int,
) -> Result<(Option<(int, bool)>, int), WorldError> {
    let moved = tdiv(previous * price_delta_bps(pressure) * 1_000, 10_000);
    let gap = (cost_floor - previous) * 1_000;
    let below_floor = cost_floor > previous && gap > moved;
    let desired = if below_floor {
        gap
    } else {
        moved
    };
    let accumulated = carry + desired;
    let raw = previous + tdiv(accumulated, 1_000);
    let floored = cost_floor > 0 && raw < cost_floor && previous >= cost_floor;
    let bounded = if floored {
        cost_floor
    } else {
        raw
    };
    let price = if bounded < 1 {
        1
    } else {
        bounded
    };
    let next_carry = clamp(accumulated - (price - previous) * 1_000, -999, 999);
    if price == previous {
        Ok((None, next_carry))
    } else if price > i64::MAX {
        Err(WorldError::ArithmeticOverflow("revised reference price"))
    } else {
        Ok((Some((price, below_floor || floored)), next_carry))
    }
}

/// Computes the revised reference price from one month's pressure (see
/// `revised_price_spec`).
pub fn revised_price(
    previous: Money,
    cost_floor: Money,
    pressure: ObservedMarketPressure,
    carry: i64,
) -> (r: Result<(Option<(Money, bool)>, i64), WorldError>)
    ensures
        match revised_price_spec(previous@ as int, cost_floor@ as int, pressure, carry as int) {
            Err(e) => r == Err::<(Option<(Money, bool)>, i64), WorldError>(e),
            Ok((None, c)) => r matches Ok((None, rc)) && rc == c,
            Ok((Some((p, b)), c)) => r matches Ok((Some((rp, rb)), rc)) && rp@ == p && rb == b && rc
                == c,
        },
{
    let previous_units: i128 = previous.minor_units() as i128;
    let traded: u64 = pressure.sold.saturating_add(pressure.unmet);
    let shortage_share: i128 = if pressure.unmet > 0 && traded > 0 && pressure.unsold == 0 {
        share_bps(pressure.unmet, traded)
    } else {
        0
    };
    let glut_share: i128 = if pressure.unsold > 0 && pressure.offered > 0 {
        share_bps(pressure.unsold, pressure.offered)
    } else {
        0
    };
    let delta_bps: i128 = if shortage_share > 0 {
        SHORTAGE_SENSITIVITY_BPS * shortage_share / 10_000
    } else if glut_share > 0 {
        -(SURPLUS_SENSITIVITY_BPS * glut_share / 10_000)
    } else {
        0
    };
    assert(delta_bps == price_delta_bps(pressure));
    assert(-700 <= delta_bps <= 2_500);
    let mut floor_binding = false;
    let floor_units: i128 = cost_floor.minor_units() as i128;
    proof {
        let pv = previous_units as int;
        let d = delta_bps as int;
        assert(-0x8000_0000_0000_0000 * 2_500 <= pv * d <= 0x8000_0000_0000_0000 * 2_500) by (
        nonlinear_arith)
            requires
                -0x8000_0000_0000_0000 <= pv <= 0x8000_0000_0000_0000,
                -700 <= d <= 2_500,
        ;
    }
    let mut desired = match milli_move(previous_units, delta_bps) {
        Ok(v) => v,
        Err(e) => {
            return Err(e);
        },
    };
    if floor_units > previous_units {
        let gap: i128 = (floor_units - previous_units) * CARRY_SCALE;
        if gap > desired {
            desired = gap;
            floor_binding = true;
        }
    }
    let accumulated: i128 = carry as i128 + desired;
    let mut price: i128 = previous_units + accumulated / CARRY_SCALE;
    if floor_units > 0 && price < floor_units && previous_units >= floor_units {
        price = floor_units;
        floor_binding = true;
    }
    if price < 1 {
        price = 1;
    }
    let applied: i128 = (price - previous_units) * CARRY_SCALE;
    let diff: i128 = accumulated - applied;
    let remainder: i128 = if diff < -(CARRY_SCALE - 1) {
        -(CARRY_SCALE - 1)
    } else if diff > CARRY_SCALE - 1 {
        CARRY_SCALE - 1
    } else {
        diff
    };
    let next_carry = remainder as i64;
    if price == previous_units {
        return Ok((None, next_carry));
    }
    if price > i64::MAX as i128 {
        return Err(WorldError::ArithmeticOverflow("revised reference price"));
    }
    Ok((Some((Money::from_minor_units(price as i64), floor_binding)), next_carry))
}

/// A price at or above a positive variable-cost floor is never revised below it.
pub proof fn lemma_price_never_cut_below_cost(
    previous: int,
    cost_floor: int,
    pressure: ObservedMarketPressure,
    carry: int,
)
    requires
        0 < cost_floor <= previous,
    ensures
        revised_price_spec(previous, cost_floor, pressure, carry) matches Ok((Some((p, _)), _))
            ==> p >= cost_floor,
{
}

/// Unsold offers never push a price up: the pressure's move is a cut or nothing,
/// even when unmet need stands beside the unsold stock.
pub proof fn lemma_unsold_stock_never_raises(pressure: ObservedMarketPressure)
    requires
        pressure.unsold > 0,
    ensures
        price_delta_bps(pressure) <= 0,
{
}

/// A market that cleared exactly (nothing unsold, nothing unmet), with nothing
/// carried and a price at or above its floor, keeps its price and carries nothing.
pub proof fn lemma_cleared_market_keeps_price(
    previous: int,
    cost_floor: int,
    pressure: ObservedMarketPressure,
)
    requires
        pressure.unsold == 0,
        pressure.unmet == 0,
        previous >= 1,
        previous >= cost_floor,
    ensures
        revised_price_spec(previous, cost_floor, pressure, 0) == Ok::<
            (Option<(int, bool)>, int),
            WorldError,
        >((None, 0)),
{
    assert(price_delta_bps(pressure) == 0);
    assert(previous * 0 * 1_000 == 0);
}

/// A price below the variable cost of its cheapest producer goes to that cost at
/// once (with nothing carried and no shortage pushing it further).
pub proof fn lemma_price_below_cost_goes_to_cost(
    previous: int,
    cost_floor: int,
    pressure: ObservedMarketPressure,
)
    requires
        1 <= previous < cost_floor <= i64::MAX,
        price_delta_bps(pressure) <= 0,
    ensures
        revised_price_spec(previous, cost_floor, pressure, 0) matches Ok((Some((p, b)), c)) && p
            == cost_floor && b && c == 0,
{
    let d = price_delta_bps(pressure);
    assert(previous * d * 1_000 <= 0) by (nonlinear_arith)
        requires
            previous >= 1,
            d <= 0,
    ;
    assert((cost_floor - previous) * 1_000 / 1_000 == cost_floor - previous);
}

/// The carried fraction always stays below one minor unit either way.
pub proof fn lemma_carry_below_one_unit(
    previous: int,
    cost_floor: int,
    pressure: ObservedMarketPressure,
    carry: int,
)
    ensures
        revised_price_spec(previous, cost_floor, pressure, carry) matches Ok((_, c)) ==> -999 <= c
            <= 999,
{
}

/// A month that calls for a rise (shortage, or no pressure) with nothing negative
/// carried never lowers a price.
pub proof fn lemma_shortage_never_cuts(
    previous: int,
    cost_floor: int,
    pressure: ObservedMarketPressure,
    carry: int,
)
    requires
        previous >= 1,
        carry >= 0,
        price_delta_bps(pressure) >= 0,
    ensures
        revised_price_spec(previous, cost_floor, pressure, carry) matches Ok((Some((p, _)), _))
            ==> p >= previous,
{
    let d = price_delta_bps(pressure);
    assert(previous * d * 1_000 >= 0) by (nonlinear_arith)
        requires
            previous >= 1,
            d >= 0,
    ;
}

/// A month that calls for a cut (unsold stock, or no pressure) with nothing positive
/// carried never raises a price that is not below its cost floor.
pub proof fn lemma_glut_never_raises(
    previous: int,
    cost_floor: int,
    pressure: ObservedMarketPressure,
    carry: int,
)
    requires
        previous >= 1,
        previous >= cost_floor,
        carry <= 0,
        price_delta_bps(pressure) <= 0,
    ensures
        revised_price_spec(previous, cost_floor, pressure, carry) matches Ok((Some((p, _)), _))
            ==> p <= previous,
{
    let d = price_delta_bps(pressure);
    assert(previous * d * 1_000 <= 0) by (nonlinear_arith)
        requires
            previous >= 1,
            d <= 0,
    ;
}

/// The outcomes of the sellers `ks`, one seller's book after another.
pub open spec fn outcomes_of(m: Map<u32, Seq<MarketOfferOutcome>>, ks: Seq<u32>) -> Seq<MarketOfferOutcome>
    decreases ks.len(),
{
    if ks.len() == 0 {
        Seq::empty()
    } else {
        outcomes_of(m, ks.drop_last()) + m[ks.last()]
    }
}

/// `a + b`, capped at `u64::MAX`.
pub open spec fn capped_sum(a: u64, b: u64) -> u64 {
    if a + b > u64::MAX {
        u64::MAX
    } else {
        (a + b) as u64
    }
}

/// The pressure of each market (region, good) over the outcomes `s`: the quantities
/// offered, sold and left unsold, summed and capped at `u64::MAX`, and the largest
/// unmet demand any seller reported.
pub open spec fn market_pressures(s: Seq<MarketOfferOutcome>) -> Map<(u32, u32), ObservedMarketPressure>
    decreases s.len(),
{
    if s.len() == 0 {
        Map::empty()
    } else {
        let m = market_pressures(s.drop_last());
        let o = s.last();
        let k = (o.region@, o.good@);
        let e = if m.contains_key(k) {
            m[k]
        } else {
            ObservedMarketPressure { offered: 0, sold: 0, unsold: 0, unmet: 0 }
        };
        m.insert(
            k,
            ObservedMarketPressure {
                offered: capped_sum(e.offered, o.offered@),
                sold: capped_sum(e.sold, o.sold@),
                unsold: capped_sum(e.unsold, o.unsold@),
                unmet: if e.unmet >= o.unmet_market_demand@ {
                    e.unmet
                } else {
                    o.unmet_market_demand@
                },
            },
        )
    }
}

impl World {
    /// The month's market pressure of each (region, good), gathered from every seller's
    /// offer outcomes (see `market_pressures`).
    pub fn observed_market_pressure(&self) -> (r: BTreeMap<(u32, u32), ObservedMarketPressure>)
        ensures
            r@ == market_pressures(
                outcomes_of(self@.monthly_firm_market_outcomes, key_order(self@.monthly_firm_market_outcomes)),
            ),
    {
        let ks = keys_in_order(&self.monthly_firm_market_outcomes);
        let ghost m = self@.monthly_firm_market_outcomes;
        let mut pressures: BTreeMap<(u32, u32), ObservedMarketPressure> = BTreeMap::new();
        proof {
            assert(m.dom() =~= self.monthly_firm_market_outcomes@.dom());
            lemma_key_order_same_dom(self.monthly_firm_market_outcomes@, m, ks@);
        }
        let mut i: usize = 0;
        while i < ks.len()
            invariant
                m == self@.monthly_firm_market_outcomes,
                m == self.monthly_firm_market_outcomes@.map_values(|v: Vec<MarketOfferOutcome>| v@),
                ks@ == key_order(self.monthly_firm_market_outcomes@),
                ks@ == key_order(m),
                forall|j: int| 0 <= j < ks@.len() ==> self.monthly_firm_market_outcomes@.contains_key(#[trigger] ks@[j]),
                i <= ks.len(),
                pressures@ == market_pressures(outcomes_of(m, ks@.take(i as int))),
            decreases ks.len() - i,
        {
            let book = self.monthly_firm_market_outcomes.get(&ks[i]).unwrap();
            let ghost prefix = outcomes_of(m, ks@.take(i as int));
            proof {
                assert(book@ == m[ks@[i as int]]);
                assert(book@.take(0) =~= Seq::<MarketOfferOutcome>::empty());
                assert(prefix + book@.take(0) =~= prefix);
            }
            let mut j: usize = 0;
            while j < book.len()
                invariant
                    j <= book.len(),
                    pressures@ == market_pressures(prefix + book@.take(j as int)),
                decreases book.len() - j,
            {
                let o = book[j];
                let key = (o.region.get(), o.good.get());
                let e = match pressures.get(&key) {
                    Some(e) => *e,
                    None => ObservedMarketPressure { offered: 0, sold: 0, unsold: 0, unmet: 0 },
                };
                let next = ObservedMarketPressure {
                    offered: e.offered.saturating_add(o.offered.get()),
                    sold: e.sold.saturating_add(o.sold.get()),
                    unsold: e.unsold.saturating_add(o.unsold.get()),
                    unmet: if e.unmet >= o.unmet_market_demand.get() {
                        e.unmet
                    } else {
                        o.unmet_market_demand.get()
                    },
                };
                proof {
                    let s = prefix + book@.take(j + 1);
                    assert(s.drop_last() =~= prefix + book@.take(j as int));
                    assert(s.last() == o);
                }
                pressures.insert(key, next);
                j = j + 1;
            }
            proof {
                assert(book@.take(book@.len() as int) =~= book@);
                assert(ks@.take(i + 1).drop_last() =~= ks@.take(i as int));
                assert(ks@.take(i + 1).last() == ks@[i as int]);
            }
            i = i + 1;
        }
        proof {
            assert(ks@.take(ks@.len() as int) =~= ks@);
        }
        pressures
    }
}

} // verus!
