use vstd::prelude::*;

use std::collections::BTreeMap;

use crate::ids::CountryId;
use crate::ordered::{key_order, keys_in_order};
use crate::political_economy::{region_weighted_totals, weighted_totals, RegionalSocialPressure};
use crate::service_allocation::interest_satisfaction;
use crate::value::{clamp_int, BasisPoints, Money};
use crate::world::{World, WorldError, WorldView};

verus! {

/// Margin by which a new concern must exceed the current one to replace it.
pub const PRIORITY_SWITCH_MARGIN_BPS: u16 = 750;
/// Pressure at which a concern becomes active.
pub const ACTIVE_PRESSURE_BPS: u16 = 2_500;
/// Confidence points per point of legitimacy effect.
pub const CONFIDENCE_EFFECT_DIVISOR: i32 = 25;

/// The concern a region presses its government on.
#[derive(Clone, Copy, Debug, PartialEq, Eq, Structural, PartialOrd, Ord, Hash)]
pub enum RegionalPolicyPriority {
    Employment,
    HouseholdSecurity,
    PublicServices,
    Stability,
}

/// Whether a region pays more in taxes than it receives in services, or the reverse.
#[derive(Clone, Copy, Debug, PartialEq, Eq, Structural, PartialOrd, Ord, Hash)]
pub enum RegionalFiscalPosition {
    NetContributor,
    Balanced,
    NetBeneficiary,
}

/// Persistent regional policy concern and confidence in national government.
#[derive(Clone, Copy, Debug, PartialEq, Eq, Structural)]
pub struct RegionalInterest {
    pub priority: RegionalPolicyPriority,
    pub priority_pressure: BasisPoints,
    pub satisfaction: BasisPoints,
    pub years_persistent: u8,
    pub previous_priority_pressure: BasisPoints,
}

impl Default for RegionalInterest {
    fn default() -> (r: Self)
        ensures
            r.priority == RegionalPolicyPriority::Stability,
            r.priority_pressure@ == 0,
            r.satisfaction@ == 5_000,
            r.years_persistent == 0,
            r.previous_priority_pressure@ == 0,
    {
        RegionalInterest {
            priority: RegionalPolicyPriority::Stability,
            priority_pressure: BasisPoints::zero(),
            satisfaction: BasisPoints::half(),
            years_persistent: 0,
            previous_priority_pressure: BasisPoints::zero(),
        }
    }
}

impl RegionalInterest {
    pub fn priority(self) -> (r: RegionalPolicyPriority)
        ensures
            r == self.priority,
    {
        self.priority
    }

    pub fn priority_pressure(self) -> (r: BasisPoints)
        ensures
            r == self.priority_pressure,
    {
        self.priority_pressure
    }

    pub fn satisfaction(self) -> (r: BasisPoints)
        ensures
            r == self.satisfaction,
    {
        self.satisfaction
    }

    pub fn years_persistent(self) -> (r: u8)
        ensures
            r == self.years_persistent,
    {
        self.years_persistent
    }

    pub fn previous_priority_pressure(self) -> (r: BasisPoints)
        ensures
            r == self.previous_priority_pressure,
    {
        self.previous_priority_pressure
    }
}

/// Observable fiscal incidence for one region in one annual closure.
#[derive(Clone, Copy, Debug, PartialEq, Eq, Structural)]
pub struct RegionalPolicyOutcome {
    pub taxes_paid: Money,
    pub service_allocation: Money,
    pub net_transfer: Money,
    pub fiscal_position: RegionalFiscalPosition,
}

impl Default for RegionalPolicyOutcome {
    fn default() -> (r: Self)
        ensures
            r.taxes_paid@ == 0,
            r.service_allocation@ == 0,
            r.net_transfer@ == 0,
            r.fiscal_position == RegionalFiscalPosition::Balanced,
    {
        RegionalPolicyOutcome {
            taxes_paid: Money::zero(),
            service_allocation: Money::zero(),
            net_transfer: Money::zero(),
            fiscal_position: RegionalFiscalPosition::Balanced,
        }
    }
}

impl RegionalPolicyOutcome {
    pub fn taxes_paid(self) -> (r: Money)
        ensures
            r == self.taxes_paid,
    {
        self.taxes_paid
    }

    pub fn service_allocation(self) -> (r: Money)
        ensures
            r == self.service_allocation,
    {
        self.service_allocation
    }

    pub fn net_transfer(self) -> (r: Money)
        ensures
            r == self.net_transfer,
    {
        self.net_transfer
    }

    pub fn fiscal_position(self) -> (r: RegionalFiscalPosition)
        ensures
            r == self.fiscal_position,
    {
        self.fiscal_position
    }
}

/// Legitimacy effect of a country's regional confidence, truncated toward zero.
pub open spec fn confidence_effect_spec(confidence: int) -> int {
    let centered = confidence - 5_000;
    if centered >= 0 {
        centered / 25
    } else {
        -((-centered) / 25)
    }
}

/// Legitimacy effect of regional confidence: centered on 50% and within ±200.
pub fn regional_confidence_effect(confidence: BasisPoints) -> (r: i32)
    ensures
        r == confidence_effect_spec(confidence@ as int),
        -200 <= r <= 200,
{
    (confidence.get() as i32 - 5_000) / CONFIDENCE_EFFECT_DIVISOR
}

/// The strength of `priority` in a pressure reading.
pub open spec fn priority_strength(priority: RegionalPolicyPriority, pressure: RegionalSocialPressure) -> u16 {
    match priority {
        RegionalPolicyPriority::Employment => pressure.chronic_unemployment@,
        RegionalPolicyPriority::HouseholdSecurity => pressure.livelihood_stress@,
        RegionalPolicyPriority::PublicServices => pressure.public_service_shortfall@,
        RegionalPolicyPriority::Stability => pressure.combined@,
    }
}

/// The strongest concrete concern, earlier priorities winning ties; `Stability` with
/// the combined pressure when no concern is active.
pub open spec fn leading_priority_spec(pressure: RegionalSocialPressure) -> (RegionalPolicyPriority, u16) {
    let u = pressure.chronic_unemployment@;
    let l = pressure.livelihood_stress@;
    let s = pressure.public_service_shortfall@;
    let (p, strength) = if u >= l && u >= s {
        (RegionalPolicyPriority::Employment, u)
    } else if l >= s {
        (RegionalPolicyPriority::HouseholdSecurity, l)
    } else {
        (RegionalPolicyPriority::PublicServices, s)
    };
    if strength < ACTIVE_PRESSURE_BPS {
        (RegionalPolicyPriority::Stability, pressure.combined@)
    } else {
        (p, strength)
    }
}

/// The regional interest after one year of evidence: the concern switches only to a
/// materially stronger one (or away from stability once pressure is active), and
/// satisfaction moves with the improvement of the held concern and the fiscal
/// position, by at most 250 points.
pub open spec fn updated_interest(
    previous: RegionalInterest,
    pressure: RegionalSocialPressure,
    fiscal_position: RegionalFiscalPosition,
) -> (RegionalPolicyPriority, u16, int, int) {
    let (candidate, candidate_strength) = leading_priority_spec(pressure);
    let current_strength = priority_strength(previous.priority, pressure);
    let margin = if current_strength as int + PRIORITY_SWITCH_MARGIN_BPS > u16::MAX {
        u16::MAX as int
    } else {
        current_strength as int + PRIORITY_SWITCH_MARGIN_BPS
    };
    let switches = candidate != previous.priority && (candidate_strength >= margin || (
    previous.priority == RegionalPolicyPriority::Stability && pressure.combined@
        >= ACTIVE_PRESSURE_BPS));
    let priority = if switches {
        candidate
    } else {
        previous.priority
    };
    let strength = priority_strength(priority, pressure);
    let improvement = if switches {
        0
    } else {
        previous.previous_priority_pressure@ as int - strength as int
    };
    let fiscal_signal = match fiscal_position {
        RegionalFiscalPosition::NetContributor => -25int,
        RegionalFiscalPosition::Balanced => 0int,
        RegionalFiscalPosition::NetBeneficiary => 25int,
    };
    let step = if improvement >= 0 {
        improvement / 20
    } else {
        -((-improvement) / 20)
    };
    let shift = clamp_int(step + fiscal_signal, -250, 250);
    let years = if switches {
        1int
    } else if previous.years_persistent == u8::MAX {
        u8::MAX as int
    } else {
        previous.years_persistent + 1
    };
    (priority, strength, clamp_int(previous.satisfaction@ + shift, 0, 10_000), years)
}

/// Computes `leading_priority_spec`.
pub fn leading_priority(pressure: RegionalSocialPressure) -> (r: (RegionalPolicyPriority, u16))
    ensures
        r == leading_priority_spec(pressure),
{
    let u = pressure.chronic_unemployment.get();
    let l = pressure.livelihood_stress.get();
    let s = pressure.public_service_shortfall.get();
    let (p, strength) = if u >= l && u >= s {
        (RegionalPolicyPriority::Employment, u)
    } else if l >= s {
        (RegionalPolicyPriority::HouseholdSecurity, l)
    } else {
        (RegionalPolicyPriority::PublicServices, s)
    };
    if strength < ACTIVE_PRESSURE_BPS {
        (RegionalPolicyPriority::Stability, pressure.combined.get())
    } else {
        (p, strength)
    }
}

/// Computes `priority_strength`.
pub fn priority_pressure(priority: RegionalPolicyPriority, pressure: RegionalSocialPressure) -> (r:
    u16)
    ensures
        r == priority_strength(priority, pressure),
        r <= 10_000,
{
    match priority {
        RegionalPolicyPriority::Employment => pressure.chronic_unemployment.get(),
        RegionalPolicyPriority::HouseholdSecurity => pressure.livelihood_stress.get(),
        RegionalPolicyPriority::PublicServices => pressure.public_service_shortfall.get(),
        RegionalPolicyPriority::Stability => pressure.combined.get(),
    }
}

/// One annual update of a region's interest, following `updated_interest`.
pub fn update_interest(
    previous: RegionalInterest,
    pressure: RegionalSocialPressure,
    fiscal_position: RegionalFiscalPosition,
) -> (r: RegionalInterest)
    ensures
        ({
            let (priority, strength, satisfaction, years) = updated_interest(
                previous,
                pressure,
                fiscal_position,
            );
            &&& r.priority == priority
            &&& r.priority_pressure@ == strength
            &&& r.previous_priority_pressure@ == strength
            &&& r.satisfaction@ == satisfaction
            &&& r.years_persistent == years
        }),
{
    let (candidate, candidate_strength) = leading_priority(pressure);
    let current_strength = priority_pressure(previous.priority, pressure);
    let switches = candidate != previous.priority && (candidate_strength
        >= current_strength.saturating_add(PRIORITY_SWITCH_MARGIN_BPS) || (previous.priority
        == RegionalPolicyPriority::Stability && pressure.combined.get() >= ACTIVE_PRESSURE_BPS));
    let priority = if switches {
        candidate
    } else {
        previous.priority
    };
    let strength = priority_pressure(priority, pressure);
    let improvement: i32 = if switches {
        0
    } else {
        previous.previous_priority_pressure.get() as i32 - strength as i32
    };
    let fiscal_signal: i32 = match fiscal_position {
        RegionalFiscalPosition::NetContributor => -25,
        RegionalFiscalPosition::Balanced => 0,
        RegionalFiscalPosition::NetBeneficiary => 25,
    };
    let raw = improvement / 20 + fiscal_signal;
    let satisfaction_shift = if raw < -250 {
        -250
    } else if raw > 250 {
        250
    } else {
        raw
    };
    RegionalInterest {
        priority,
        priority_pressure: BasisPoints::from_bounded(strength),
        satisfaction: previous.satisfaction.shifted(satisfaction_shift),
        years_persistent: if switches {
            1
        } else {
            previous.years_persistent.saturating_add(1)
        },
        previous_priority_pressure: BasisPoints::from_bounded(strength),
    }
}

/// Converts a wide amount to money, failing with `ArithmeticOverflow(context)`.
pub fn money_from_i128(value: i128, context: &'static str) -> (r: Result<Money, WorldError>)
    ensures
        i64::MIN <= value <= i64::MAX ==> (r matches Ok(m) && m@ == value),
        !(i64::MIN <= value <= i64::MAX) ==> r == Err::<Money, WorldError>(
            WorldError::ArithmeticOverflow(context),
        ),
{
    if value < i64::MIN as i128 || value > i64::MAX as i128 {
        Err(WorldError::ArithmeticOverflow(context))
    } else {
        Ok(Money::from_minor_units(value as i64))
    }
}

/// The population-weighted confidence of a country's regions in government, capped
/// at 10,000; 50% for a country without people.
pub open spec fn country_confidence_spec(w: WorldView, country: CountryId) -> int {
    let (people, weighted) = weighted_totals(
        w,
        country,
        key_order(w.regions),
        |id: u32| interest_satisfaction(w, id),
    );
    if people == 0 {
        5_000
    } else if weighted / people < 10_000 {
        weighted / people
    } else {
        10_000
    }
}

impl World {
    pub fn regional_interests(&self) -> (r: &BTreeMap<u32, RegionalInterest>)
        ensures
            r@ == self@.regional_interests,
    {
        &self.regional_interests
    }

    pub fn regional_policy_outcomes(&self) -> (r: &BTreeMap<u32, RegionalPolicyOutcome>)
        ensures
            r@ == self@.regional_policy_outcomes,
    {
        &self.regional_policy_outcomes
    }

    /// The population-weighted regional confidence of a country (see
    /// `country_confidence_spec`).
    pub fn country_regional_confidence(&self, country: CountryId) -> (r: BasisPoints)
        ensures
            r@ == country_confidence_spec(self@, country),
    {
        let keys = keys_in_order(&self.regions);
        let ghost value = |id: u32| interest_satisfaction(self@, id);
        let mut values: Vec<u16> = Vec::new();
        let mut i: usize = 0;
        while i < keys.len()
            invariant
                i <= keys.len(),
                value == (|id: u32| interest_satisfaction(self@, id)),
                values@.len() == i,
                forall|k: int| 0 <= k < i ==> values@[k] as int == value(#[trigger] keys@[k]),
            decreases keys.len() - i,
        {
            let v: u16 = match self.regional_interests.get(&keys[i]) {
                Some(interest) => interest.satisfaction.get(),
                None => 5_000,
            };
            values.push(v);
            i = i + 1;
        }
        let (people, weighted) = region_weighted_totals(self, country, &keys, &values, Ghost(value));
        if people == 0 {
            return BasisPoints::half();
        }
        let average = weighted / people;
        if average < 10_000 {
            BasisPoints::from_bounded(average as u16)
        } else {
            BasisPoints::full()
        }
    }
}

} // verus!
