use vstd::prelude::*;

use crate::ids::{CountryId, RegionId};
use crate::political_economy::{
    country_pressure_spec, legitimacy_effect, legitimacy_effect_spec, social_pressure_from,
    RegionalSocialPressure,
};
use crate::public_services::RegionalPublicServices;
use crate::regional_interests::country_confidence_spec;
use std::collections::BTreeMap;
use crate::regional_interests::{confidence_effect_spec, regional_confidence_effect};
use crate::value::clamp_int;
use crate::world::{CountryIndicators, Region, World, WorldView};
use crate::ordered::{key_order, keys_in_order};
use crate::pricing::{clamp, tdiv, trunc_div};
use crate::regional_interests::money_from_i128;
use crate::rng::{centered, centered_draw, stream_for_state_spec, WorldSeed};
use crate::value::{BasisPoints, Money, Population, RatePpm};
use crate::world::WorldError;

verus! {

broadcast use {
    Population::lemma_spec_from_view,
    Population::lemma_from_own_view,
    RatePpm::lemma_spec_from_view,
    RatePpm::lemma_from_own_view,
    Money::lemma_spec_from_view,
    Money::lemma_from_own_view,
    BasisPoints::lemma_spec_from_view,
    BasisPoints::lemma_from_own_view,
    vstd::std_specs::btree::group_btree_axioms,
};

/// Parts per million in one whole.
pub const RATE_SCALE: i128 = 1_000_000;

/// Debt-to-output basis points per basis point of spending brake.
pub const DEBT_BRAKE_RATIO_DIVISOR: i128 = 10;

/// The largest spending brake, in basis points of output.
pub const DEBT_BRAKE_MAX_BPS: i128 = 600;

/// The least a government spends, in basis points of output.
pub const SPENDING_FLOOR_BPS: i128 = 1_200;

/// Annual interest on public debt, in basis points.
pub const DEBT_INTEREST_BPS: i128 = 300;

/// Debt above this multiple of annual output may be restructured.
pub const DEBT_RESTRUCTURING_OUTPUT_MULTIPLE: i128 = 2;

/// Interest at or above a third of revenue may force a restructuring.
pub const DEBT_RESTRUCTURING_INTEREST_REVENUE_MULTIPLE: i128 = 3;

/// The share of principal a restructuring writes off, in basis points.
pub const DEBT_RESTRUCTURING_HAIRCUT_BPS: i128 = 4_000;

/// Legitimacy lost to a restructuring.
pub const DEBT_RESTRUCTURING_LEGITIMACY_SHOCK: i32 = -800;

/// Elite cohesion lost to a restructuring.
pub const DEBT_RESTRUCTURING_COHESION_SHOCK: i32 = -500;

/// Whether `x` fits in `i64`.
pub open spec fn fits_i64(x: int) -> bool {
    i64::MIN <= x <= i64::MAX
}

/// The treasury and debt after a year's balance: a surplus repays up to half of itself
/// against positive debt and banks the rest; a deficit draws on positive treasury first
/// and borrows the remainder.
pub open spec fn closed_budget(treasury: int, debt: int, balance: int) -> (int, int) {
    if balance >= 0 {
        let repayment = if balance / 2 < (if debt > 0 {
            debt
        } else {
            0
        }) {
            balance / 2
        } else if debt > 0 {
            debt
        } else {
            0
        };
        (treasury + balance - repayment, debt - repayment)
    } else {
        let deficit = -balance;
        let draw = if deficit < (if treasury > 0 {
            treasury
        } else {
            0
        }) {
            deficit
        } else if treasury > 0 {
            treasury
        } else {
            0
        };
        (treasury - draw, debt + deficit - draw)
    }
}

/// Whether closing a budget stays within 128-bit arithmetic: the balance can be negated
/// and the closed treasury and debt fit `i128`.
pub open spec fn closure_fits_i128(treasury: int, debt: int, balance: int) -> bool {
    let (t, d) = closed_budget(treasury, debt, balance);
    &&& balance > i128::MIN
    &&& i128::MIN <= t <= i128::MAX
    &&& i128::MIN <= d <= i128::MAX
}

/// Closes a year's budget (see `closed_budget`); fails when the treasury, and then the
/// debt, would not fit the currency.
pub fn close_budget(treasury: Money, debt: Money, balance: i128) -> (r: Result<(Money, Money), WorldError>)
    requires
        closure_fits_i128(treasury@ as int, debt@ as int, balance as int),
    ensures
        ({
            let (t, d) = closed_budget(treasury@ as int, debt@ as int, balance as int);
            &&& !fits_i64(t) ==> r == Err::<(Money, Money), WorldError>(
                WorldError::ArithmeticOverflow("treasury closure"),
            )
            &&& fits_i64(t) && !fits_i64(d) ==> r == Err::<(Money, Money), WorldError>(
                WorldError::ArithmeticOverflow("debt closure"),
            )
            &&& fits_i64(t) && fits_i64(d) ==> (r matches Ok((nt, nd)) && nt@ == t && nd@ == d)
        }),
{
    let mut treasury_value: i128 = treasury.minor_units() as i128;
    let mut debt_value: i128 = debt.minor_units() as i128;
    if balance >= 0 {
        let half: i128 = balance / 2;
        let owed: i128 = if debt_value > 0 {
            debt_value
        } else {
            0
        };
        let repayment: i128 = if half < owed {
            half
        } else {
            owed
        };
        debt_value = debt_value - repayment;
        treasury_value = treasury_value + (balance - repayment);
    } else {
        let deficit: i128 = -balance;
        let held: i128 = if treasury_value > 0 {
            treasury_value
        } else {
            0
        };
        let draw: i128 = if deficit < held {
            deficit
        } else {
            held
        };
        treasury_value = treasury_value - draw;
        debt_value = debt_value + (deficit - draw);
    }
    let treasury_money = money_from_i128(treasury_value, "treasury closure")?;
    let debt_money = money_from_i128(debt_value, "debt closure")?;
    Ok((treasury_money, debt_money))
}

/// Closing a budget conserves the government's net position: treasury less debt moves
/// by exactly the year's balance.
pub proof fn lemma_budget_closure_conserves_net_position(treasury: int, debt: int, balance: int)
    ensures
        closed_budget(treasury, debt, balance).0 - closed_budget(treasury, debt, balance).1
            == treasury - debt + balance,
{
}

/// A deficit is met from positive treasury before any new borrowing, and a surplus never
/// raises the debt.
pub proof fn lemma_deficits_borrow_only_beyond_the_treasury(treasury: int, debt: int, balance: int)
    ensures
        balance < 0 && treasury >= -balance ==> closed_budget(treasury, debt, balance).1 == debt,
        balance < 0 && treasury < -balance ==> closed_budget(treasury, debt, balance).1 == debt + (
        -balance) - (if treasury > 0 {
            treasury
        } else {
            0
        }),
        balance >= 0 ==> closed_budget(treasury, debt, balance).1 <= debt,
{
}

/// Whether debt is unsustainable: above twice annual output while interest reaches a
/// third of revenue (non-positive amounts count as zero, revenue as at least one).
pub open spec fn debt_is_unsustainable(debt: int, output: int, revenue: int, interest: int) -> bool {
    let dv = if debt > 0 {
        debt
    } else {
        0
    };
    let ov = if output > 0 {
        output
    } else {
        0
    };
    let rv = if revenue > 1 {
        revenue
    } else {
        1
    };
    let iv = if interest > 0 {
        interest
    } else {
        0
    };
    dv > ov * DEBT_RESTRUCTURING_OUTPUT_MULTIPLE && iv * DEBT_RESTRUCTURING_INTEREST_REVENUE_MULTIPLE
        >= rv
}

/// The principal a restructuring writes off: 40% of the debt, rounded down.
pub open spec fn written_off_principal(debt: int) -> int {
    debt * DEBT_RESTRUCTURING_HAIRCUT_BPS / 10_000
}

/// Restructures unsustainable public debt: writes off 40% of the principal and returns
/// the debt left and the principal written off; sustainable debt is returned unchanged
/// with nothing written off.
pub fn plan_public_debt_restructuring(debt: Money, annual_output: i128, revenue: Money, interest: Money) -> (r:
    Result<(Money, Money), WorldError>)
    ensures
        !debt_is_unsustainable(debt@ as int, annual_output as int, revenue@ as int, interest@ as int)
            ==> r == Ok::<(Money, Money), WorldError>((debt, Money::spec_from(0))),
        debt_is_unsustainable(debt@ as int, annual_output as int, revenue@ as int, interest@ as int)
            ==> (r matches Ok((left, off)) && off@ == written_off_principal(debt@ as int) && left@
            == debt@ - written_off_principal(debt@ as int)),
{
    let debt_value: i128 = if debt.minor_units() > 0 {
        debt.minor_units() as i128
    } else {
        0
    };
    let output_value: i128 = if annual_output > 0 {
        annual_output
    } else {
        0
    };
    let revenue_value: i128 = if revenue.minor_units() > 1 {
        revenue.minor_units() as i128
    } else {
        1
    };
    let interest_value: i128 = if interest.minor_units() > 0 {
        interest.minor_units() as i128
    } else {
        0
    };
    let capacity: i128 = if output_value > i128::MAX / DEBT_RESTRUCTURING_OUTPUT_MULTIPLE {
        i128::MAX
    } else {
        output_value * DEBT_RESTRUCTURING_OUTPUT_MULTIPLE
    };
    let exceeds_capacity = debt_value > capacity;
    let service = interest_value * DEBT_RESTRUCTURING_INTEREST_REVENUE_MULTIPLE;
    let service_exceeds_revenue = service >= revenue_value;
    proof {
        if output_value * 2 > i128::MAX {
            assert(debt_value <= i64::MAX);
        }
    }
    if !exceeds_capacity || !service_exceeds_revenue {
        return Ok((debt, Money::zero()));
    }
    let written_off: i128 = debt_value * DEBT_RESTRUCTURING_HAIRCUT_BPS / 10_000;
    let remaining: i128 = debt_value - written_off;
    Ok((Money::from_minor_units(remaining as i64), Money::from_minor_units(written_off as i64)))
}

/// A restructuring keeps the principal accounted for: what is left and what is written
/// off add up to the debt before it.
pub proof fn lemma_restructuring_accounts_for_principal(debt: int)
    requires
        debt > 0,
    ensures
        (debt - written_off_principal(debt)) + written_off_principal(debt) == debt,
        0 <= written_off_principal(debt) < debt,
{
    assert(0 <= debt * 4_000 / 10_000 < debt) by (nonlinear_arith)
        requires
            debt > 0,
    ;
}

/// `value` grown by `rate` parts per million, the growth rounded toward zero.
pub open spec fn grown(value: int, rate: int) -> int {
    value + tdiv(value * rate, RATE_SCALE as int)
}

/// A population after a year at `rate`; fails when it would not fit.
pub fn apply_population_rate(value: Population, rate: RatePpm) -> (r: Result<Population, WorldError>)
    ensures
        0 <= grown(value@ as int, rate@ as int) <= u64::MAX ==> (r matches Ok(p) && p@ == grown(
            value@ as int,
            rate@ as int,
        )),
        !(0 <= grown(value@ as int, rate@ as int) <= u64::MAX) ==> r == Err::<Population, WorldError>(
            WorldError::ArithmeticOverflow("population growth"),
        ),
{
    let base: i128 = value.people() as i128;
    let r: i128 = rate.get() as i128;
    assert(-0x1_0000_0000_0000_0000 * 1_000_000 <= base * r <= 0x1_0000_0000_0000_0000 * 1_000_000)
        by (nonlinear_arith)
        requires
            0 <= base <= 0xffff_ffff_ffff_ffff,
            -1_000_000 <= r <= 1_000_000,
    ;
    let result: i128 = base + trunc_div(base * r, RATE_SCALE);
    if result < 0 || result > u64::MAX as i128 {
        return Err(WorldError::ArithmeticOverflow("population growth"));
    }
    Ok(Population::new(result as u64))
}

/// An amount after a year at `rate`; fails when it would not fit the currency.
pub fn apply_money_rate(value: Money, rate: RatePpm) -> (r: Result<Money, WorldError>)
    ensures
        fits_i64(grown(value@ as int, rate@ as int)) ==> (r matches Ok(m) && m@ == grown(
            value@ as int,
            rate@ as int,
        )),
        !fits_i64(grown(value@ as int, rate@ as int)) ==> r == Err::<Money, WorldError>(
            WorldError::ArithmeticOverflow("regional output growth"),
        ),
{
    let base: i128 = value.minor_units() as i128;
    let r: i128 = rate.get() as i128;
    assert(-0x8000_0000_0000_0000 * 1_000_000 <= base * r <= 0x8000_0000_0000_0000 * 1_000_000)
        by (nonlinear_arith)
        requires
            -0x8000_0000_0000_0000 <= base <= 0x7fff_ffff_ffff_ffff,
            -1_000_000 <= r <= 1_000_000,
    ;
    money_from_i128(base + trunc_div(base * r, RATE_SCALE), "regional output growth")
}

/// The output growth a year realized, in parts per million, clamped to ±100%; from
/// nothing, any output counts as +100%.
pub open spec fn realized_rate(previous: int, current: int) -> int {
    if previous == 0 {
        if current == 0 {
            0
        } else {
            1_000_000
        }
    } else {
        clamp(
            tdiv(
                (current - previous) * RATE_SCALE,
                if previous < 0 {
                    -previous
                } else {
                    previous
                },
            ),
            -1_000_000,
            1_000_000,
        )
    }
}

/// The growth rate between two annual outputs (see `realized_rate`).
pub fn realized_output_rate(previous: Money, current: Money) -> (r: RatePpm)
    ensures
        r@ == realized_rate(previous@ as int, current@ as int),
{
    let p: i128 = previous.minor_units() as i128;
    let c: i128 = current.minor_units() as i128;
    let rate: i128 = if p == 0 {
        if c == 0 {
            0
        } else {
            1_000_000
        }
    } else {
        let magnitude: i128 = if p < 0 {
            -p
        } else {
            p
        };
        let raw = trunc_div((c - p) * RATE_SCALE, magnitude);
        if raw < -1_000_000 {
            -1_000_000
        } else if raw > 1_000_000 {
            1_000_000
        } else {
            raw
        }
    };
    RatePpm::from_bounded(rate as i32)
}

/// The random stream domain of demography.
pub const DEMOGRAPHY_DOMAIN: u64 = 0x4445_4d4f_4752_4150;

/// The random stream domain of regional economies.
pub const ECONOMY_DOMAIN: u64 = 0x4543_4f4e_4f4d_5900;

/// The random stream domain of national politics.
pub const POLITICS_DOMAIN: u64 = 0x504f_4c49_5449_4353;

/// A region's population growth for a year, in parts per million: a 0.4% baseline,
/// moved by output per person (±0.3%), by legitimacy, and by a shock of up to ±0.1%
/// drawn from the region's demography stream for that year; clamped to ±3%.
pub open spec fn population_rate_spec(
    seed: u64,
    year: i32,
    region: u32,
    people: int,
    output: int,
    legitimacy: int,
) -> int {
    let per_person = if people == 0 {
        0
    } else {
        tdiv(output, people)
    };
    let prosperity = clamp(tdiv(per_person - 3_000_000, 2_000), -3_000, 3_000);
    let legitimacy_effect = tdiv(legitimacy - 5_000, 2);
    let shock = centered_draw(stream_for_state_spec(seed, DEMOGRAPHY_DOMAIN, region, year), 1_000);
    clamp(4_000 + prosperity + legitimacy_effect + shock, -30_000, 30_000)
}

/// Draws a region's population growth for a year (see `population_rate_spec`).
pub fn population_rate(
    seed: WorldSeed,
    year: i32,
    region: RegionId,
    population: Population,
    output: Money,
    legitimacy: BasisPoints,
) -> (r: RatePpm)
    ensures
        r@ == population_rate_spec(
            seed@,
            year,
            region@,
            population@ as int,
            output@ as int,
            legitimacy@ as int,
        ),
{
    let people: i128 = population.people() as i128;
    let per_person: i128 = if people == 0 {
        0
    } else {
        trunc_div(output.minor_units() as i128, people)
    };
    let raw_prosperity = trunc_div(per_person - 3_000_000, 2_000);
    let prosperity: i128 = if raw_prosperity < -3_000 {
        -3_000
    } else if raw_prosperity > 3_000 {
        3_000
    } else {
        raw_prosperity
    };
    let legitimacy_effect = trunc_div(legitimacy.get() as i128 - 5_000, 2);
    let mut random = seed.stream_for(DEMOGRAPHY_DOMAIN, region.get(), year);
    let shock = centered(&mut random, 1_000);
    let raw: i128 = 4_000 + prosperity + legitimacy_effect + shock as i128;
    let rate: i128 = if raw < -30_000 {
        -30_000
    } else if raw > 30_000 {
        30_000
    } else {
        raw
    };
    RatePpm::from_bounded(rate as i32)
}

/// A region's output growth for a year, in parts per million: a 1.5% baseline, half the
/// population growth, legitimacy and elite cohesion away from 50%, and a shock of up to
/// ±1.2% drawn from the region's economy stream for that year; clamped to -15%..=+20%.
pub open spec fn output_rate_spec(
    seed: u64,
    year: i32,
    region: u32,
    population_rate: int,
    legitimacy: int,
    cohesion: int,
) -> int {
    let shock = centered_draw(stream_for_state_spec(seed, ECONOMY_DOMAIN, region, year), 12_000);
    clamp(
        15_000 + tdiv(population_rate, 2) + (legitimacy - 5_000) + (cohesion - 5_000) + shock,
        -150_000,
        200_000,
    )
}

/// Draws a region's output growth for a year (see `output_rate_spec`).
pub fn output_rate(
    seed: WorldSeed,
    year: i32,
    region: RegionId,
    population_rate: RatePpm,
    legitimacy: BasisPoints,
    cohesion: BasisPoints,
) -> (r: RatePpm)
    ensures
        r@ == output_rate_spec(
            seed@,
            year,
            region@,
            population_rate@ as int,
            legitimacy@ as int,
            cohesion@ as int,
        ),
{
    let mut random = seed.stream_for(ECONOMY_DOMAIN, region.get(), year);
    let shock = centered(&mut random, 12_000);
    let raw: i128 = 15_000 + trunc_div(population_rate.get() as i128, 2) + (legitimacy.get() as i128
        - 5_000) + (cohesion.get() as i128 - 5_000) + shock as i128;
    let rate: i128 = if raw < -150_000 {
        -150_000
    } else if raw > 200_000 {
        200_000
    } else {
        raw
    };
    RatePpm::from_bounded(rate as i32)
}

/// One country's fiscal and political year, planned before it is applied.
#[derive(Clone, Copy, Debug, PartialEq, Eq, Structural)]
pub struct CountryUpdate {
    pub id: CountryId,
    pub revenue: Money,
    pub spending: Money,
    /// The part of the spending paid out to households (none in this model).
    pub household_outlay: Money,
    pub treasury: Money,
    pub debt: Money,
    pub opening_debt: Money,
    pub interest: Money,
    pub debt_before_restructuring: Money,
    pub principal_written_off: Money,
    pub social_pressure: BasisPoints,
    pub legitimacy_effect: i32,
    pub regional_confidence: BasisPoints,
    pub regional_confidence_effect: i32,
    pub legitimacy: BasisPoints,
    pub cohesion: BasisPoints,
}

/// The spending brake from debt, in basis points of output: a tenth of the
/// debt-to-output ratio, at most 6%, and the most when output is gone.
pub open spec fn debt_brake(debt: int, new_output: int) -> int {
    let owed = if debt > 0 {
        debt
    } else {
        0
    };
    let ratio = if owed == 0 {
        0
    } else if new_output <= 0 {
        (DEBT_BRAKE_MAX_BPS * DEBT_BRAKE_RATIO_DIVISOR) as int
    } else {
        owed * 10_000 / new_output
    };
    if ratio / (DEBT_BRAKE_RATIO_DIVISOR as int) < DEBT_BRAKE_MAX_BPS {
        ratio / (DEBT_BRAKE_RATIO_DIVISOR as int)
    } else {
        DEBT_BRAKE_MAX_BPS as int
    }
}

/// The share of output a government spends, in basis points: 22% plus a tenth of its
/// illegitimacy, less the debt brake, and never below 12%.
pub open spec fn spending_share(legitimacy: int, debt: int, new_output: int) -> int {
    let share = 2_200 + (10_000 - legitimacy) / 10 - debt_brake(debt, new_output);
    if share > SPENDING_FLOOR_BPS {
        share
    } else {
        SPENDING_FLOOR_BPS as int
    }
}

/// A year's interest on positive debt.
pub open spec fn debt_interest(debt: int) -> int {
    (if debt > 0 {
        debt
    } else {
        0
    }) * DEBT_INTEREST_BPS / 10_000
}

/// Output growth in parts per million, clamped to ±100%, zero from no output.
pub open spec fn growth_ppm(old_output: int, new_output: int) -> int {
    if old_output == 0 {
        0
    } else {
        clamp(tdiv((new_output - old_output) * RATE_SCALE, old_output), -1_000_000, 1_000_000)
    }
}

/// The politics of a year: legitimacy moves with growth, the fiscal balance, a shock of
/// up to ±0.9% from the country's politics stream, social pressure and regional
/// confidence; cohesion with half the fiscal signal and a third of the shock; a
/// restructuring costs both.
pub open spec fn politics_after(
    seed: u64,
    year: i32,
    id: CountryId,
    indicators: CountryIndicators,
    growth: int,
    balance: int,
    written_off: int,
    social_pressure: int,
    regional_confidence: int,
) -> (int, int) {
    let fiscal_signal = if balance >= 0 {
        35int
    } else {
        -70int
    };
    let shock = centered_draw(stream_for_state_spec(seed, POLITICS_DOMAIN, id@, year), 90);
    let legitimacy = clamp_int(
        indicators.legitimacy@ + tdiv(growth, 250) + fiscal_signal + shock + legitimacy_effect_spec(
            social_pressure,
        ) + confidence_effect_spec(regional_confidence),
        0,
        10_000,
    );
    let cohesion = clamp_int(
        indicators.elite_cohesion@ + tdiv(fiscal_signal, 2) + tdiv(shock, 3),
        0,
        10_000,
    );
    if written_off > 0 {
        (
            clamp_int(legitimacy + DEBT_RESTRUCTURING_LEGITIMACY_SHOCK, 0, 10_000),
            clamp_int(cohesion + DEBT_RESTRUCTURING_COHESION_SHOCK, 0, 10_000),
        )
    } else {
        (legitimacy, cohesion)
    }
}

/// Whether `u` is the fiscal and political year of a country whose revenue is a share of
/// its output (16% plus a twentieth of its cohesion), closed as `close_budget` and
/// `plan_public_debt_restructuring` do.
pub open spec fn is_country_year(
    u: CountryUpdate,
    seed: u64,
    year: i32,
    id: CountryId,
    indicators: CountryIndicators,
    old_output: int,
    new_output: int,
    social_pressure: BasisPoints,
    regional_confidence: BasisPoints,
) -> bool {
    let debt = indicators.public_debt@ as int;
    let revenue = tdiv(new_output * (1_600 + indicators.elite_cohesion@ / 20), 10_000);
    let interest = debt_interest(debt);
    let spending = tdiv(new_output * spending_share(indicators.legitimacy@ as int, debt, new_output), 10_000)
        + interest;
    let balance = revenue - spending;
    let (treasury, before) = closed_budget(indicators.treasury@ as int, debt, balance);
    let restructure = debt_is_unsustainable(before, new_output, revenue, interest);
    let written_off = if restructure {
        written_off_principal(before)
    } else {
        0
    };
    let (legitimacy, cohesion) = politics_after(
        seed,
        year,
        id,
        indicators,
        growth_ppm(old_output, new_output),
        balance,
        written_off,
        social_pressure@ as int,
        regional_confidence@ as int,
    );
    &&& u.id == id
    &&& u.revenue@ == revenue
    &&& u.spending@ == spending
    &&& u.household_outlay@ == 0
    &&& u.treasury@ == treasury
    &&& u.debt_before_restructuring@ == before
    &&& u.debt@ == before - written_off
    &&& u.principal_written_off@ == written_off
    &&& u.opening_debt == indicators.public_debt
    &&& u.interest@ == interest
    &&& u.social_pressure == social_pressure
    &&& u.legitimacy_effect == legitimacy_effect_spec(social_pressure@ as int)
    &&& u.regional_confidence == regional_confidence
    &&& u.regional_confidence_effect == confidence_effect_spec(regional_confidence@ as int)
    &&& u.legitimacy@ == legitimacy
    &&& u.cohesion@ == cohesion
}

/// The error, if any, of planning a country's year: the revenue, then the spending,
/// then the closed treasury and debt must fit the currency.
pub open spec fn country_year_error(indicators: CountryIndicators, new_output: int) -> Option<WorldError> {
    let debt = indicators.public_debt@ as int;
    let revenue = tdiv(new_output * (1_600 + indicators.elite_cohesion@ / 20), 10_000);
    let interest = debt_interest(debt);
    let spending = tdiv(new_output * spending_share(indicators.legitimacy@ as int, debt, new_output), 10_000)
        + interest;
    let (treasury, before) = closed_budget(indicators.treasury@ as int, debt, revenue - spending);
    if !fits_i64(revenue) {
        Some(WorldError::ArithmeticOverflow("fiscal revenue"))
    } else if !fits_i64(spending) {
        Some(WorldError::ArithmeticOverflow("fiscal spending"))
    } else if !fits_i64(treasury) {
        Some(WorldError::ArithmeticOverflow("treasury closure"))
    } else if !fits_i64(before) {
        Some(WorldError::ArithmeticOverflow("debt closure"))
    } else {
        None
    }
}

/// The debt brake in basis points (see `debt_brake`).
fn debt_brake_bps(debt: Money, new_output: i128) -> (r: i128)
    requires
        -0x1_0000_0000_0000_0000_0000_0000 <= new_output <= 0x1_0000_0000_0000_0000_0000_0000,
    ensures
        r == debt_brake(debt@ as int, new_output as int),
        0 <= r <= 600,
{
    let owed: i128 = if debt.minor_units() > 0 {
        debt.minor_units() as i128
    } else {
        0
    };
    let ratio: i128 = if owed == 0 {
        0
    } else if new_output <= 0 {
        DEBT_BRAKE_MAX_BPS * DEBT_BRAKE_RATIO_DIVISOR
    } else {
        owed * 10_000 / new_output
    };
    proof {
        if owed > 0 && new_output > 0 {
            assert(owed * 10_000 / (new_output as int) >= 0) by (nonlinear_arith)
                requires
                    owed > 0,
                    new_output > 0,
            ;
        }
    }
    if ratio / DEBT_BRAKE_RATIO_DIVISOR < DEBT_BRAKE_MAX_BPS {
        ratio / DEBT_BRAKE_RATIO_DIVISOR
    } else {
        DEBT_BRAKE_MAX_BPS
    }
}

/// Plans a country's fiscal and political year (see `is_country_year`) from its output
/// before and after the year, its social pressure and its regional confidence.
#[verifier::rlimit(80)]
#[verifier::spinoff_prover]
pub fn plan_country(
    seed: WorldSeed,
    year: i32,
    id: CountryId,
    indicators: CountryIndicators,
    old_output: i128,
    new_output: i128,
    social_pressure: BasisPoints,
    regional_confidence: BasisPoints,
) -> (r: Result<CountryUpdate, WorldError>)
    requires
        -0x1_0000_0000_0000_0000_0000_0000 <= old_output <= 0x1_0000_0000_0000_0000_0000_0000,
        -0x1_0000_0000_0000_0000_0000_0000 <= new_output <= 0x1_0000_0000_0000_0000_0000_0000,
    ensures
        country_year_error(indicators, new_output as int) matches Some(e) ==> r == Err::<
            CountryUpdate,
            WorldError,
        >(e),
        country_year_error(indicators, new_output as int) is None ==> (r matches Ok(u)
            && is_country_year(
            u,
            seed@,
            year,
            id,
            indicators,
            old_output as int,
            new_output as int,
            social_pressure,
            regional_confidence,
        )),
{
    let revenue_bps: i128 = 1_600 + indicators.elite_cohesion.get() as i128 / 20;
    let brake = debt_brake_bps(indicators.public_debt, new_output);
    let raw_share: i128 = 2_200 + (10_000 - indicators.legitimacy.get() as i128) / 10 - brake;
    let spending_bps: i128 = if raw_share > SPENDING_FLOOR_BPS {
        raw_share
    } else {
        SPENDING_FLOOR_BPS
    };
    proof {
        assert(-0x1_0000_0000_0000_0000_0000_0000 * 2_200 <= new_output * revenue_bps
            <= 0x1_0000_0000_0000_0000_0000_0000 * 2_200) by (nonlinear_arith)
            requires
                -0x1_0000_0000_0000_0000_0000_0000 <= new_output
                    <= 0x1_0000_0000_0000_0000_0000_0000,
                0 <= revenue_bps <= 2_200,
        ;
        assert(-0x1_0000_0000_0000_0000_0000_0000 * 3_200 <= new_output * spending_bps
            <= 0x1_0000_0000_0000_0000_0000_0000 * 3_200) by (nonlinear_arith)
            requires
                -0x1_0000_0000_0000_0000_0000_0000 <= new_output
                    <= 0x1_0000_0000_0000_0000_0000_0000,
                0 <= spending_bps <= 3_200,
        ;
    }
    let revenue = money_from_i128(trunc_div(new_output * revenue_bps, 10_000), "fiscal revenue")?;
    let owed: i128 = if indicators.public_debt.minor_units() > 0 {
        indicators.public_debt.minor_units() as i128
    } else {
        0
    };
    let interest: i128 = owed * DEBT_INTEREST_BPS / 10_000;
    let spending = money_from_i128(
        trunc_div(new_output * spending_bps, 10_000) + interest,
        "fiscal spending",
    )?;
    let balance: i128 = revenue.minor_units() as i128 - spending.minor_units() as i128;
    let (treasury, debt_before_restructuring) = close_budget(
        indicators.treasury,
        indicators.public_debt,
        balance,
    )?;
    let interest_money = Money::from_minor_units(interest as i64);
    let (debt, principal_written_off) = plan_public_debt_restructuring(
        debt_before_restructuring,
        new_output,
        revenue,
        interest_money,
    )?;
    let growth: i128 = if old_output == 0 {
        0
    } else {
        let raw = trunc_div((new_output - old_output) * RATE_SCALE, old_output);
        if raw < -1_000_000 {
            -1_000_000
        } else if raw > 1_000_000 {
            1_000_000
        } else {
            raw
        }
    };
    let fiscal_signal: i32 = if balance >= 0 {
        35
    } else {
        -70
    };
    let mut random = seed.stream_for(POLITICS_DOMAIN, id.get(), year);
    let political_shock = centered(&mut random, 90);
    let growth_signal: i32 = (growth / 250) as i32;
    let pressure_effect = legitimacy_effect(social_pressure);
    let confidence_effect = regional_confidence_effect(regional_confidence);
    let mut legitimacy = indicators.legitimacy.shifted(
        growth_signal + fiscal_signal + political_shock + pressure_effect + confidence_effect,
    );
    let mut cohesion = indicators.elite_cohesion.shifted(fiscal_signal / 2 + political_shock / 3);
    if principal_written_off.minor_units() > 0 {
        legitimacy = legitimacy.shifted(DEBT_RESTRUCTURING_LEGITIMACY_SHOCK);
        cohesion = cohesion.shifted(DEBT_RESTRUCTURING_COHESION_SHOCK);
    }
    Ok(
        CountryUpdate {
            id,
            revenue,
            spending,
            household_outlay: Money::zero(),
            treasury,
            debt,
            opening_debt: indicators.public_debt,
            interest: interest_money,
            debt_before_restructuring,
            principal_written_off,
            social_pressure,
            legitimacy_effect: pressure_effect,
            regional_confidence,
            regional_confidence_effect: confidence_effect,
            legitimacy,
            cohesion,
        },
    )
}

/// One region's demographic and economic year, planned before it is applied.
#[derive(Clone, Copy, Debug, PartialEq, Eq, Structural)]
pub struct RegionUpdate {
    pub id: RegionId,
    pub population: Population,
    pub population_rate: RatePpm,
    pub annual_output: Money,
    pub output_rate: RatePpm,
}

/// Every region is stored under its own id and belongs to a registered country.
pub open spec fn regions_have_countries(w: WorldView) -> bool {
    forall|id: u32| #[trigger] w.regions.contains_key(id) ==> w.regions[id].id@ == id
        && w.countries.contains_key(w.regions[id].country@)
}

/// Once a region's year cannot be planned, later regions do not change the error.
pub proof fn lemma_region_error_sticks(w: WorldView, year: i32, ids: Seq<u32>, k: int)
    requires
        0 <= k <= ids.len(),
        regions_year_error(w, year, ids.take(k)) is Some,
    ensures
        regions_year_error(w, year, ids) == regions_year_error(w, year, ids.take(k)),
    decreases ids.len() - k,
{
    if k == ids.len() {
        assert(ids.take(k) =~= ids);
    } else {
        assert(ids.take(k + 1).drop_last() =~= ids.take(k));
        lemma_region_error_sticks(w, year, ids, k + 1);
    }
}

/// The population growth of region `id` in `year`.
pub open spec fn region_population_rate(w: WorldView, year: i32, id: u32) -> int {
    let r = w.regions[id];
    population_rate_spec(
        w.seed,
        year,
        id,
        r.population@ as int,
        r.annual_output@ as int,
        w.countries[r.country@].indicators.legitimacy@ as int,
    )
}

/// The output growth of region `id` in `year`.
pub open spec fn region_output_rate(w: WorldView, year: i32, id: u32) -> int {
    let r = w.regions[id];
    let indicators = w.countries[r.country@].indicators;
    output_rate_spec(
        w.seed,
        year,
        id,
        region_population_rate(w, year, id),
        indicators.legitimacy@ as int,
        indicators.elite_cohesion@ as int,
    )
}

/// Why region `id`'s year cannot be planned: its population, then its output, would
/// not fit.
pub open spec fn region_year_error(w: WorldView, year: i32, id: u32) -> Option<WorldError> {
    let r = w.regions[id];
    let population = grown(r.population@ as int, region_population_rate(w, year, id));
    let output = grown(r.annual_output@ as int, region_output_rate(w, year, id));
    if !(0 <= population <= u64::MAX) {
        Some(WorldError::ArithmeticOverflow("population growth"))
    } else if !fits_i64(output) {
        Some(WorldError::ArithmeticOverflow("regional output growth"))
    } else {
        None
    }
}

/// Whether `u` is region `id`'s year: both rates drawn and applied.
pub open spec fn is_region_year(u: RegionUpdate, w: WorldView, year: i32, id: u32) -> bool {
    let r = w.regions[id];
    &&& u.id@ == id
    &&& u.population_rate@ == region_population_rate(w, year, id)
    &&& u.population@ == grown(r.population@ as int, region_population_rate(w, year, id))
    &&& u.output_rate@ == region_output_rate(w, year, id)
    &&& u.annual_output@ == grown(r.annual_output@ as int, region_output_rate(w, year, id))
}

/// The first region, in the order `ids`, whose year cannot be planned.
pub open spec fn regions_year_error(w: WorldView, year: i32, ids: Seq<u32>) -> Option<WorldError>
    decreases ids.len(),
{
    if ids.len() == 0 {
        None
    } else {
        match regions_year_error(w, year, ids.drop_last()) {
            Some(e) => Some(e),
            None => region_year_error(w, year, ids.last()),
        }
    }
}

impl World {
    /// Plans every region's year in id order (see `is_region_year`), or the first
    /// region's error.
    pub fn plan_regions(&self, year: i32) -> (r: Result<Vec<RegionUpdate>, WorldError>)
        requires
            regions_have_countries(self@),
        ensures
            ({
                let ids = key_order(self@.regions);
                match r {
                    Err(e) => regions_year_error(self@, year, ids) == Some(e),
                    Ok(updates) => {
                        &&& regions_year_error(self@, year, ids) is None
                        &&& updates@.len() == ids.len()
                        &&& forall|i: int|
                            0 <= i < ids.len() ==> is_region_year(
                                #[trigger] updates@[i],
                                self@,
                                year,
                                ids[i],
                            )
                    },
                }
            }),
    {
        let ids = keys_in_order(&self.regions);
        let mut updates: Vec<RegionUpdate> = Vec::new();
        let mut i: usize = 0;
        while i < ids.len()
            invariant
                ids@ == key_order(self@.regions),
                forall|j: int| 0 <= j < ids@.len() ==> self@.regions.contains_key(#[trigger] ids@[j]),
                regions_have_countries(self@),
                i <= ids.len(),
                regions_year_error(self@, year, ids@.take(i as int)) is None,
                updates@.len() == i,
                forall|j: int|
                    0 <= j < i ==> is_region_year(#[trigger] updates@[j], self@, year, ids@[j]),
            decreases ids.len() - i,
        {
            let id = ids[i];
            proof {
                assert(ids@.take(i + 1).drop_last() =~= ids@.take(i as int));
            }
            let region = self.regions.get(&id).unwrap();
            let indicators = self.countries.get(&region.country.get()).unwrap().indicators;
            let population_rate = population_rate(
                self.seed,
                year,
                region.id,
                region.population,
                region.annual_output,
                indicators.legitimacy,
            );
            let population = match apply_population_rate(region.population, population_rate) {
                Ok(p) => p,
                Err(e) => {
                    proof {
                        lemma_region_error_sticks(self@, year, ids@, i + 1);
                    }
                    return Err(e);
                },
            };
            let output_rate = output_rate(
                self.seed,
                year,
                region.id,
                population_rate,
                indicators.legitimacy,
                indicators.elite_cohesion,
            );
            let annual_output = match apply_money_rate(region.annual_output, output_rate) {
                Ok(m) => m,
                Err(e) => {
                    proof {
                        lemma_region_error_sticks(self@, year, ids@, i + 1);
                    }
                    return Err(e);
                },
            };
            updates.push(RegionUpdate { id: region.id, population, population_rate, annual_output, output_rate });
            i = i + 1;
        }
        proof {
            assert(ids@.take(ids@.len() as int) =~= ids@);
        }
        Ok(updates)
    }
}

/// A region's public services, or the default half-funded services when none are
/// recorded.
pub open spec fn services_or_default(w: WorldView, id: u32) -> RegionalPublicServices {
    if w.regional_public_services.contains_key(id) {
        w.regional_public_services[id]
    } else {
        RegionalPublicServices {
            healthcare: BasisPoints::spec_from(5_000),
            infrastructure: BasisPoints::spec_from(5_000),
            administration: BasisPoints::spec_from(5_000),
        }
    }
}

/// The social pressure of a region whose only evidence is its public services (the
/// closure reads no livelihood evidence of household cohorts): the service shortfall,
/// and a sixth of it as the combined pressure.
pub open spec fn service_only_pressure(s: RegionalPublicServices) -> RegionalSocialPressure {
    let shortfall = 10_000 - (s.healthcare@ + s.infrastructure@ + s.administration@) / 3;
    RegionalSocialPressure {
        chronic_unemployment: BasisPoints::spec_from(0),
        livelihood_stress: BasisPoints::spec_from(0),
        public_service_shortfall: BasisPoints::spec_from(shortfall as u16),
        combined: BasisPoints::spec_from((shortfall / 6) as u16),
    }
}

/// The social pressure of every region for the annual closure.
pub open spec fn pressure_plan(w: WorldView) -> Map<u32, RegionalSocialPressure> {
    Map::new(
        |id: u32| w.regions.contains_key(id),
        |id: u32| service_only_pressure(services_or_default(w, id)),
    )
}

/// The output of a country's regions among `ids`.
pub open spec fn country_output(w: WorldView, ids: Seq<u32>, country: CountryId) -> int
    decreases ids.len(),
{
    if ids.len() == 0 {
        0
    } else {
        country_output(w, ids.drop_last(), country) + if w.regions[ids.last()].country == country {
            w.regions[ids.last()].annual_output@ as int
        } else {
            0
        }
    }
}

/// The planned output of a country's regions, `updates[i]` being the year of region
/// `ids[i]`.
pub open spec fn country_planned_output(
    w: WorldView,
    ids: Seq<u32>,
    updates: Seq<RegionUpdate>,
    country: CountryId,
) -> int
    decreases ids.len(),
{
    if ids.len() == 0 {
        0
    } else {
        country_planned_output(w, ids.drop_last(), updates, country) + if w.regions[ids.last()].country
            == country {
            updates[ids.len() - 1].annual_output@ as int
        } else {
            0
        }
    }
}

/// Ids in increasing order are at least their positions.
pub proof fn lemma_increasing_ids_bound(ids: Seq<u32>)
    requires
        crate::ordered::strictly_increasing(ids),
    ensures
        forall|i: int| 0 <= i < ids.len() ==> i <= #[trigger] ids[i],
        ids.len() <= 0x1_0000_0000,
    decreases ids.len(),
{
    if ids.len() > 0 {
        let rest = ids.drop_last();
        assert(crate::ordered::strictly_increasing(rest));
        lemma_increasing_ids_bound(rest);
        assert forall|i: int| 0 <= i < ids.len() implies i <= #[trigger] ids[i] by {
            if i < ids.len() - 1 {
                assert(rest[i] == ids[i]);
            } else if i > 0 {
                assert(rest[i - 1] == ids[i - 1]);
                assert(ids[i - 1] < ids[i]);
            }
        }
        assert(ids.len() - 1 <= ids[ids.len() - 1]);
    }
}

impl World {
    /// The social pressure of every region for the annual closure (see `pressure_plan`).
    pub fn plan_annual_regional_social_pressure(&self) -> (r: BTreeMap<u32, RegionalSocialPressure>)
        ensures
            r@ == pressure_plan(self@),
    {
        let ids = keys_in_order(&self.regions);
        let mut out: BTreeMap<u32, RegionalSocialPressure> = BTreeMap::new();
        let mut i: usize = 0;
        while i < ids.len()
            invariant
                ids@ == key_order(self@.regions),
                crate::ordered::is_key_order(self@.regions, ids@),
                i <= ids.len(),
                forall|x: u32|
                    out@.contains_key(x) <==> exists|k: int| 0 <= k < i && #[trigger] ids@[k] == x,
                forall|x: u32| #[trigger]
                    out@.contains_key(x) ==> out@[x] == service_only_pressure(services_or_default(self@, x)),
            decreases ids.len() - i,
        {
            let id = ids[i];
            let services = match self.regional_public_services.get(&id) {
                Some(s) => *s,
                None => RegionalPublicServices::default(),
            };
            let pressure = social_pressure_from(0, 0, 0, services);
            out.insert(id, pressure);
            proof {
                assert forall|x: u32|
                    out@.contains_key(x) <==> exists|k: int| 0 <= k < i + 1 && #[trigger] ids@[k] == x by {
                    if x == id {
                        assert(ids@[i as int] == x);
                    }
                }
            }
            i = i + 1;
        }
        proof {
            assert forall|x: u32| out@.contains_key(x) <==> self@.regions.contains_key(x) by {
                if self@.regions.contains_key(x) {
                    assert(ids@.to_set().contains(x));
                }
                if out@.contains_key(x) {
                    let k = choose|k: int| 0 <= k < ids@.len() && #[trigger] ids@[k] == x;
                    assert(ids@.to_set().contains(x));
                }
            }
            assert(out@ =~= pressure_plan(self@));
        }
        out
    }
}

/// Every country is stored under its own id.
pub open spec fn countries_keyed_by_id(w: WorldView) -> bool {
    forall|id: u32| #[trigger] w.countries.contains_key(id) ==> w.countries[id].id@ == id
}

/// Whether `u` is the planned year of country `id`, given the planned region years
/// `updates` (in region-id order) and the year's regional social pressure.
pub open spec fn is_planned_country_year(
    u: CountryUpdate,
    w: WorldView,
    year: i32,
    id: u32,
    updates: Seq<RegionUpdate>,
    pressure: Map<u32, RegionalSocialPressure>,
) -> bool {
    let ids = key_order(w.regions);
    let c = w.countries[id];
    &&& u.social_pressure@ == country_pressure_spec(w, c.id, pressure)
    &&& u.regional_confidence@ == country_confidence_spec(w, c.id)
    &&& is_country_year(
        u,
        w.seed,
        year,
        c.id,
        c.indicators,
        country_output(w, ids, c.id),
        country_planned_output(w, ids, updates, c.id),
        u.social_pressure,
        u.regional_confidence,
    )
}

/// The first country, in the order `ids`, whose year cannot be planned.
pub open spec fn countries_year_error(
    w: WorldView,
    updates: Seq<RegionUpdate>,
    ids: Seq<u32>,
) -> Option<WorldError>
    decreases ids.len(),
{
    if ids.len() == 0 {
        None
    } else {
        match countries_year_error(w, updates, ids.drop_last()) {
            Some(e) => Some(e),
            None => country_year_error(
                w.countries[ids.last()].indicators,
                country_planned_output(w, key_order(w.regions), updates, w.countries[ids.last()].id),
            ),
        }
    }
}

pub proof fn lemma_country_error_sticks(w: WorldView, updates: Seq<RegionUpdate>, ids: Seq<u32>, k: int)
    requires
        0 <= k <= ids.len(),
        countries_year_error(w, updates, ids.take(k)) is Some,
    ensures
        countries_year_error(w, updates, ids) == countries_year_error(w, updates, ids.take(k)),
    decreases ids.len() - k,
{
    if k == ids.len() {
        assert(ids.take(k) =~= ids);
    } else {
        assert(ids.take(k + 1).drop_last() =~= ids.take(k));
        lemma_country_error_sticks(w, updates, ids, k + 1);
    }
}

impl World {
    /// A country's output before and after the planned year.
    fn country_outputs(&self, ids: &Vec<u32>, updates: &Vec<RegionUpdate>, country: CountryId) -> (r: (
        i128,
        i128,
    ))
        requires
            ids@ == key_order(self@.regions),
            crate::ordered::is_key_order(self@.regions, ids@),
            forall|j: int| 0 <= j < ids@.len() ==> self@.regions.contains_key(#[trigger] ids@[j]),
            updates@.len() == ids@.len(),
        ensures
            r.0 == country_output(self@, ids@, country),
            r.1 == country_planned_output(self@, ids@, updates@, country),
            -0x1_0000_0000_0000_0000_0000_0000 <= r.0 <= 0x1_0000_0000_0000_0000_0000_0000,
            -0x1_0000_0000_0000_0000_0000_0000 <= r.1 <= 0x1_0000_0000_0000_0000_0000_0000,
    {
        proof {
            lemma_increasing_ids_bound(ids@);
        }
        let mut old_total: i128 = 0;
        let mut new_total: i128 = 0;
        let mut i: usize = 0;
        while i < ids.len()
            invariant
                ids@.len() <= 0x1_0000_0000,
                forall|j: int| 0 <= j < ids@.len() ==> self@.regions.contains_key(#[trigger] ids@[j]),
                updates@.len() == ids@.len(),
                i <= ids.len(),
                old_total == country_output(self@, ids@.take(i as int), country),
                new_total == country_planned_output(self@, ids@.take(i as int), updates@, country),
                -(i * 0x8000_0000_0000_0000) <= old_total <= i * 0x8000_0000_0000_0000,
                -(i * 0x8000_0000_0000_0000) <= new_total <= i * 0x8000_0000_0000_0000,
            decreases ids.len() - i,
        {
            let region = self.regions.get(&ids[i]).unwrap();
            proof {
                assert(ids@.take(i + 1).drop_last() =~= ids@.take(i as int));
            }
            if region.country == country {
                old_total = old_total + region.annual_output.minor_units() as i128;
                new_total = new_total + updates[i].annual_output.minor_units() as i128;
            }
            proof {
                assert(country_planned_output(self@, ids@.take(i + 1), updates@, country)
                    == new_total);
            }
            i = i + 1;
        }
        proof {
            assert(ids@.take(ids@.len() as int) =~= ids@);
        }
        (old_total, new_total)
    }

    /// Plans every country's year in id order (see `is_planned_country_year`), or the
    /// first country's error.
    pub fn plan_countries(
        &self,
        year: i32,
        updates: &Vec<RegionUpdate>,
        pressure: &BTreeMap<u32, RegionalSocialPressure>,
    ) -> (r: Result<Vec<CountryUpdate>, WorldError>)
        requires
            updates@.len() == self@.regions.dom().len(),
            countries_keyed_by_id(self@),
        ensures
            ({
                let ids = key_order(self@.countries);
                match r {
                    Err(e) => countries_year_error(self@, updates@, ids) == Some(e),
                    Ok(planned) => {
                        &&& countries_year_error(self@, updates@, ids) is None
                        &&& planned@.len() == ids.len()
                        &&& forall|i: int|
                            0 <= i < ids.len() ==> is_planned_country_year(
                                #[trigger] planned@[i],
                                self@,
                                year,
                                ids[i],
                                updates@,
                                pressure@,
                            )
                    },
                }
            }),
    {
        let region_ids = keys_in_order(&self.regions);
        let ids = keys_in_order(&self.countries);
        let mut planned: Vec<CountryUpdate> = Vec::new();
        let mut i: usize = 0;
        while i < ids.len()
            invariant
                ids@ == key_order(self@.countries),
                forall|j: int| 0 <= j < ids@.len() ==> self@.countries.contains_key(#[trigger] ids@[j]),
                region_ids@ == key_order(self@.regions),
                crate::ordered::is_key_order(self@.regions, region_ids@),
                forall|j: int|
                    0 <= j < region_ids@.len() ==> self@.regions.contains_key(#[trigger] region_ids@[j]),
                updates@.len() == region_ids@.len(),
                countries_keyed_by_id(self@),
                i <= ids.len(),
                countries_year_error(self@, updates@, ids@.take(i as int)) is None,
                planned@.len() == i,
                forall|j: int|
                    0 <= j < i ==> is_planned_country_year(
                        #[trigger] planned@[j],
                        self@,
                        year,
                        ids@[j],
                        updates@,
                        pressure@,
                    ),
            decreases ids.len() - i,
        {
            let country = self.countries.get(&ids[i]).unwrap();
            proof {
                assert(ids@.take(i + 1).drop_last() =~= ids@.take(i as int));
            }
            let (old_output, new_output) = self.country_outputs(&region_ids, updates, country.id);
            let social_pressure = self.country_social_pressure(country.id, pressure);
            let confidence = self.country_regional_confidence(country.id);
            match plan_country(
                self.seed,
                year,
                country.id,
                country.indicators,
                old_output,
                new_output,
                social_pressure,
                confidence,
            ) {
                Ok(u) => {
                    planned.push(u);
                },
                Err(e) => {
                    proof {
                        lemma_country_error_sticks(self@, updates@, ids@, i + 1);
                    }
                    return Err(e);
                },
            }
            i = i + 1;
        }
        proof {
            assert(ids@.take(ids@.len() as int) =~= ids@);
        }
        Ok(planned)
    }
}

/// Region `id`'s planned year.
pub open spec fn region_year(w: WorldView, year: i32, id: u32) -> RegionUpdate {
    let r = w.regions[id];
    RegionUpdate {
        id: RegionId(id),
        population: Population::spec_from(
            grown(r.population@ as int, region_population_rate(w, year, id)) as u64,
        ),
        population_rate: RatePpm::spec_from(region_population_rate(w, year, id) as i32),
        annual_output: Money::spec_from(
            grown(r.annual_output@ as int, region_output_rate(w, year, id)) as i64,
        ),
        output_rate: RatePpm::spec_from(region_output_rate(w, year, id) as i32),
    }
}

/// Every region's planned year, in region-id order.
pub open spec fn planned_regions(w: WorldView, year: i32) -> Seq<RegionUpdate> {
    Seq::new(key_order(w.regions).len(), |i: int| region_year(w, year, key_order(w.regions)[i]))
}

/// Country `id`'s planned year.
pub open spec fn country_year(
    w: WorldView,
    year: i32,
    id: u32,
    updates: Seq<RegionUpdate>,
    pressure: Map<u32, RegionalSocialPressure>,
) -> CountryUpdate {
    let ids = key_order(w.regions);
    let c = w.countries[id];
    let indicators = c.indicators;
    let old_output = country_output(w, ids, c.id);
    let new_output = country_planned_output(w, ids, updates, c.id);
    let social = country_pressure_spec(w, c.id, pressure);
    let confidence = country_confidence_spec(w, c.id);
    let debt = indicators.public_debt@ as int;
    let revenue = tdiv(new_output * (1_600 + indicators.elite_cohesion@ / 20), 10_000);
    let interest = debt_interest(debt);
    let spending = tdiv(new_output * spending_share(indicators.legitimacy@ as int, debt, new_output), 10_000)
        + interest;
    let balance = revenue - spending;
    let (treasury, before) = closed_budget(indicators.treasury@ as int, debt, balance);
    let written_off = if debt_is_unsustainable(before, new_output, revenue, interest) {
        written_off_principal(before)
    } else {
        0
    };
    let (legitimacy, cohesion) = politics_after(
        w.seed,
        year,
        c.id,
        indicators,
        growth_ppm(old_output, new_output),
        balance,
        written_off,
        social,
        confidence,
    );
    CountryUpdate {
        id: c.id,
        revenue: Money::spec_from(revenue as i64),
        spending: Money::spec_from(spending as i64),
        household_outlay: Money::spec_from(0),
        treasury: Money::spec_from(treasury as i64),
        debt: Money::spec_from((before - written_off) as i64),
        opening_debt: indicators.public_debt,
        interest: Money::spec_from(interest as i64),
        debt_before_restructuring: Money::spec_from(before as i64),
        principal_written_off: Money::spec_from(written_off as i64),
        social_pressure: BasisPoints::spec_from(social as u16),
        legitimacy_effect: legitimacy_effect_spec(social) as i32,
        regional_confidence: BasisPoints::spec_from(confidence as u16),
        regional_confidence_effect: confidence_effect_spec(confidence) as i32,
        legitimacy: BasisPoints::spec_from(legitimacy as u16),
        cohesion: BasisPoints::spec_from(cohesion as u16),
    }
}

/// Every country's planned year, in country-id order.
pub open spec fn planned_countries(
    w: WorldView,
    year: i32,
    updates: Seq<RegionUpdate>,
    pressure: Map<u32, RegionalSocialPressure>,
) -> Seq<CountryUpdate> {
    Seq::new(
        key_order(w.countries).len(),
        |i: int| country_year(w, year, key_order(w.countries)[i], updates, pressure),
    )
}

pub proof fn lemma_region_year_is_planned(u: RegionUpdate, w: WorldView, year: i32, id: u32)
    requires
        is_region_year(u, w, year, id),
    ensures
        u == region_year(w, year, id),
{
}

pub proof fn lemma_country_year_is_planned(
    u: CountryUpdate,
    w: WorldView,
    year: i32,
    id: u32,
    updates: Seq<RegionUpdate>,
    pressure: Map<u32, RegionalSocialPressure>,
)
    requires
        is_planned_country_year(u, w, year, id, updates, pressure),
    ensures
        u == country_year(w, year, id, updates, pressure),
{
}

} // verus!
