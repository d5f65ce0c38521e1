use vstd::prelude::*;
use std::collections::BTreeMap;

use crate::cohort::{AgeBand, EmploymentStatus, HouseholdCohort};
use crate::event::{DomainEvent, EventEnvelope};
use crate::ids::{CohortId, RegionId};
use crate::labor::RegionalLaborMarketObservation;
use crate::ordered::{is_key_order, is_pair_key_order, key_order, keys_in_order, pair_keys_in_order};
use crate::pricing::tdiv;
use crate::time::SimDate;
use crate::value::{Money, Population};
use crate::world::{World, WorldError, WorldView};

verus! {

broadcast use {
    vstd::std_specs::btree::group_btree_axioms,
    Population::lemma_spec_from_view,
    Population::lemma_from_own_view,
    Money::lemma_spec_from_view,
    Money::lemma_from_own_view,
};

/// One household group's move from one region to another.
#[derive(Clone, Copy, Debug, PartialEq, Eq, Structural)]
pub struct HouseholdMigration {
    pub source_cohort: CohortId,
    pub migrant_cohort: CohortId,
    pub from_region: RegionId,
    pub to_region: RegionId,
    pub people: Population,
    pub households: u64,
    pub liquid_wealth: Money,
    pub debt: Money,
    pub relocation_fee: Money,
    pub destination_vacancy_months: u8,
    pub service_advantage_basis_points: i16,
    pub destination_housing_pressure_basis_points: u16,
}

/// A region's housing: how many dwellings it has and what one costs a month.
#[derive(Clone, Copy, Debug, PartialEq, Eq, Structural)]
pub struct RegionalHousingMarket {
    pub dwelling_capacity: u64,
    pub base_monthly_cost: Money,
}

impl RegionalHousingMarket {
    /// Creates a housing market; rejects one without dwellings or with a negative cost.
    pub fn new(dwelling_capacity: u64, base_monthly_cost: Money) -> (r: Result<Self, WorldError>)
        ensures
            dwelling_capacity == 0 ==> r == Err::<Self, WorldError>(
                WorldError::InvalidHousingMarket("housing market requires dwellings"),
            ),
            dwelling_capacity > 0 && base_monthly_cost@ < 0 ==> r == Err::<Self, WorldError>(
                WorldError::InvalidHousingMarket("housing cost must not be negative"),
            ),
            dwelling_capacity > 0 && base_monthly_cost@ >= 0 ==> r == Ok::<Self, WorldError>(
                RegionalHousingMarket { dwelling_capacity, base_monthly_cost },
            ),
    {
        if dwelling_capacity == 0 {
            return Err(WorldError::InvalidHousingMarket("housing market requires dwellings"));
        }
        if base_monthly_cost.minor_units() < 0 {
            return Err(WorldError::InvalidHousingMarket("housing cost must not be negative"));
        }
        Ok(RegionalHousingMarket { dwelling_capacity, base_monthly_cost })
    }

    pub fn dwelling_capacity(self) -> (r: u64)
        ensures
            r == self.dwelling_capacity,
    {
        self.dwelling_capacity
    }

    pub fn base_monthly_cost(self) -> (r: Money)
        ensures
            r == self.base_monthly_cost,
    {
        self.base_monthly_cost
    }
}

/// The best move open to a region's households: where to, how long vacancies have
/// pressed there, its service advantage, its housing pressure, the relocation fee and
/// the score it won with.
#[derive(Clone, Copy, Debug, PartialEq, Eq, Structural)]
pub struct MigrationOpportunity {
    pub destination: RegionId,
    pub vacancy_months: u8,
    pub service_advantage: i16,
    pub housing_pressure: u16,
    pub relocation_fee: Money,
    pub score: i32,
}

/// Months of labor-market pressure before households move.
pub const PRESSURE_GATE_MONTHS: u8 = 6;

/// The largest service disadvantage a destination may have.
pub const MAX_SERVICE_DISADVANTAGE_BPS: i32 = 1_000;

/// A region's public-service score: the mean of its three service levels, or the
/// midpoint where none are recorded.
pub open spec fn service_score(w: WorldView, r: u32) -> int {
    if w.regional_public_services.contains_key(r) {
        let s = w.regional_public_services[r];
        (s.healthcare@ + s.infrastructure@ + s.administration@) / 3
    } else {
        5_000
    }
}

/// The households of the cohorts `ks` that live in region `region`.
pub open spec fn households_in(cohorts: Map<u32, HouseholdCohort>, ks: Seq<u32>, region: u32) -> int
    decreases ks.len(),
{
    if ks.len() == 0 {
        0
    } else {
        households_in(cohorts, ks.drop_last(), region) + if cohorts[ks.last()].region@ == region {
            cohorts[ks.last()].households as int
        } else {
            0int
        }
    }
}

/// The households living in `region`.
pub open spec fn occupied(w: WorldView, region: u32) -> int {
    households_in(w.cohorts, key_order(w.cohorts), region)
}

/// The relocation fee for a housing market under a pressure: its monthly cost scaled
/// by one half plus the pressure, at least one.
pub open spec fn relocation_fee_spec(base: int, pressure: int) -> int {
    let fee = tdiv(base * (5_000 + pressure), 10_000);
    let fee = if fee < 1 {
        1
    } else {
        fee
    };
    if fee > i64::MAX {
        i64::MAX as int
    } else {
        fee
    }
}

/// `v` held within `i16`.
pub open spec fn clamp_i16(v: int) -> int {
    if v < i16::MIN {
        i16::MIN as int
    } else if v > i16::MAX {
        i16::MAX as int
    } else {
        v
    }
}

/// What moving from `source` to `dest` offers, if `dest` qualifies: another region of
/// the same country with long vacancy pressure and more vacancies than workers, no
/// large service disadvantage, and a free dwelling. `Err` where counting the destination's
/// households overflows.
pub open spec fn opportunity(w: WorldView, source: u32, dest: u32) -> Result<Option<MigrationOpportunity>, ()> {
    let source_labor = w.regional_labor_market[source];
    if dest == source || !w.regions.contains_key(dest) || w.regions[dest].country
        != w.regions[source].country || !w.regional_labor_market.contains_key(dest) {
        Ok(None)
    } else {
        let labor = w.regional_labor_market[dest];
        let advantage = service_score(w, dest) - service_score(w, source);
        if labor.vacancy_pressure_months < PRESSURE_GATE_MONTHS || labor.vacancies
            <= labor.available_workers || advantage < -MAX_SERVICE_DISADVANTAGE_BPS
            || !w.regional_housing.contains_key(dest) {
            Ok(None)
        } else if occupied(w, dest) > u64::MAX {
            Err(())
        } else {
            let housing = w.regional_housing[dest];
            let projected = occupied(w, dest) + 1;
            if projected > u64::MAX || projected > housing.dwelling_capacity {
                Ok(None)
            } else {
                let pressure = if projected * 10_000 / (housing.dwelling_capacity as int) > 10_000 {
                    10_000
                } else {
                    projected * 10_000 / (housing.dwelling_capacity as int)
                };
                Ok(
                    Some(
                        MigrationOpportunity {
                            destination: RegionId(dest),
                            vacancy_months: labor.vacancy_pressure_months,
                            service_advantage: clamp_i16(advantage) as i16,
                            housing_pressure: pressure as u16,
                            relocation_fee: Money::spec_from(
                                relocation_fee_spec(housing.base_monthly_cost@ as int, pressure) as i64,
                            ),
                            score: (labor.vacancy_pressure_months * 200
                                + source_labor.unemployment_pressure_months * 100 + advantage
                                - pressure / 2) as i32,
                        },
                    ),
                )
            }
        }
    }
}

/// The best opportunity among the regions `ks[0..k]`: the highest score, the lower
/// region id on a tie.
pub open spec fn best_upto(w: WorldView, source: u32, ks: Seq<u32>, k: int) -> Result<
    Option<MigrationOpportunity>,
    (),
>
    decreases k,
{
    if k <= 0 {
        Ok(None)
    } else {
        match best_upto(w, source, ks, k - 1) {
            Err(e) => Err(e),
            Ok(best) => match opportunity(w, source, ks[k - 1]) {
                Err(e) => Err(e),
                Ok(None) => Ok(best),
                Ok(Some(o)) => match best {
                    Some(b) => if o.score > b.score {
                        Ok(Some(o))
                    } else {
                        Ok(Some(b))
                    },
                    None => Ok(Some(o)),
                },
            },
        }
    }
}

/// The best move out of `source`, or none where its labor market does not push
/// households out (short unemployment pressure, or no more workers than vacancies).
pub open spec fn best_opportunity(w: WorldView, source: u32) -> Result<Option<MigrationOpportunity>, ()> {
    if !w.regions.contains_key(source) || !w.regional_labor_market.contains_key(source) {
        Ok(None)
    } else {
        let labor = w.regional_labor_market[source];
        if labor.unemployment_pressure_months < PRESSURE_GATE_MONTHS || labor.available_workers
            <= labor.vacancies {
            Ok(None)
        } else {
            let ks = key_order(w.regions);
            best_upto(w, source, ks, ks.len() as int)
        }
    }
}

/// Whether a destination's opportunity qualifies.
pub open spec fn qualifies(o: Result<Option<MigrationOpportunity>, ()>) -> bool {
    o is Ok && o->Ok_0 is Some
}

/// The best opportunity among the increasing region ids `ks[0..k]` qualifies, scores
/// at least as high as every qualifying destination among them, and has the lowest id
/// among equal scores; there is none only where none qualifies.
proof fn lemma_best_upto_is_best(w: WorldView, source: u32, ks: Seq<u32>, k: int)
    requires
        0 <= k <= ks.len(),
        crate::ordered::strictly_increasing(ks),
        best_upto(w, source, ks, k) is Ok,
    ensures
        forall|j: int| 0 <= j < k ==> opportunity(w, source, #[trigger] ks[j]) is Ok,
        match best_upto(w, source, ks, k)->Ok_0 {
            None => forall|j: int| 0 <= j < k ==> opportunity(w, source, #[trigger] ks[j]) == Ok::<
                Option<MigrationOpportunity>,
                (),
            >(None),
            Some(b) => {
                &&& opportunity(w, source, b.destination@) == Ok::<Option<MigrationOpportunity>, ()>(Some(b))
                &&& exists|j: int| 0 <= j < k && ks[j] == b.destination@
                &&& forall|j: int|
                    0 <= j < k && qualifies(#[trigger] opportunity(w, source, ks[j])) ==> opportunity(
                        w,
                        source,
                        ks[j],
                    )->Ok_0->Some_0.score <= b.score && (opportunity(w, source, ks[j])->Ok_0->Some_0.score == b.score
                        ==> b.destination@ <= ks[j])
            },
        },
    decreases k,
{
    if k > 0 {
        lemma_best_upto_is_best(w, source, ks, k - 1);
        let x = ks[k - 1];
        match best_upto(w, source, ks, k - 1)->Ok_0 {
            None => {},
            Some(b) => {
                let j0 = choose|j: int| 0 <= j < k - 1 && ks[j] == b.destination@;
                assert(ks[j0] < x);
            },
        }
    }
}

/// Where a region pushes a household out, it goes to the best qualifying destination:
/// one whose opportunity qualifies and scores at least as high as every other qualifying
/// destination from the same source, the lower region id among equal scores. (For a
/// region registry with a key order.)
pub proof fn lemma_best_opportunity_is_best(w: WorldView, source: u32)
    requires
        is_key_order(w.regions, key_order(w.regions)),
        best_opportunity(w, source) matches Ok(Some(b)),
    ensures
        best_opportunity(w, source) matches Ok(Some(b)) && opportunity(w, source, b.destination@) == Ok::<
            Option<MigrationOpportunity>,
            (),
        >(Some(b)) && forall|d: u32|
            #![trigger opportunity(w, source, d)]
            w.regions.contains_key(d) && qualifies(opportunity(w, source, d)) ==> opportunity(w, source, d)->Ok_0->Some_0.score
                <= b.score && (opportunity(w, source, d)->Ok_0->Some_0.score == b.score ==> b.destination@ <= d),
{
    let ks = key_order(w.regions);
    lemma_best_upto_is_best(w, source, ks, ks.len() as int);
    let b = best_opportunity(w, source)->Ok_0->Some_0;
    assert forall|d: u32|
        #![trigger opportunity(w, source, d)]
        w.regions.contains_key(d) && qualifies(opportunity(w, source, d)) implies opportunity(w, source, d)->Ok_0->Some_0.score
            <= b.score && (opportunity(w, source, d)->Ok_0->Some_0.score == b.score ==> b.destination@ <= d) by {
        assert(ks.to_set().contains(d));
        let j = choose|j: int| 0 <= j < ks.len() && ks[j] == d;
        assert(opportunity(w, source, ks[j]) == opportunity(w, source, d));
    }
}

/// Whether a cohort's workers hold an active employment agreement.
pub open spec fn actively_employed(w: WorldView, cohort: u32) -> bool {
    exists|k: (u32, u32)|
        #[trigger] w.employment_agreements.contains_key(k) && k.1 == cohort
            && w.employment_agreements[k].active
}

/// Whether a cohort of `source` may send a household away: unemployed working-age
/// households, more than one of them, with no active employment agreement.
pub open spec fn is_mobile(w: WorldView, c: HouseholdCohort, source: u32) -> bool {
    &&& c.region@ == source
    &&& c.employment == EmploymentStatus::Unemployed
    &&& (c.age_band == AgeBand::Adult || c.age_band == AgeBand::Mature)
    &&& c.people@ > 1
    &&& c.households > 1
    &&& !actively_employed(w, c.id@)
}

/// Liquid wealth per household (truncated).
pub open spec fn liquidity_per_household(c: HouseholdCohort) -> int {
    tdiv(
        c.liquid_wealth@ as int,
        if c.households > i64::MAX {
            i64::MAX as int
        } else {
            c.households as int
        },
    )
}

/// The most liquid mobile cohort among the cohorts `ks[0..k]`, the lower id on a tie.
pub open spec fn mobile_upto(w: WorldView, source: u32, ks: Seq<u32>, k: int) -> Option<u32>
    decreases k,
{
    if k <= 0 {
        None
    } else {
        let best = mobile_upto(w, source, ks, k - 1);
        let c = w.cohorts[ks[k - 1]];
        if !is_mobile(w, c, source) {
            best
        } else {
            match best {
                Some(b) => if liquidity_per_household(c) > liquidity_per_household(w.cohorts[b]) {
                    Some(ks[k - 1])
                } else {
                    Some(b)
                },
                None => Some(ks[k - 1]),
            }
        }
    }
}

/// The most liquid mobile cohort of `source`.
pub open spec fn mobile_cohort(w: WorldView, source: u32) -> Option<u32> {
    let ks = key_order(w.cohorts);
    mobile_upto(w, source, ks, ks.len() as int)
}

/// The most liquid mobile cohort among the increasing ids `ks[0..k]` is mobile, holds at
/// least as much per household as every mobile cohort among them, and has the lowest id
/// among equals.
proof fn lemma_mobile_upto_is_most_liquid(w: WorldView, source: u32, ks: Seq<u32>, k: int)
    requires
        0 <= k <= ks.len(),
        crate::ordered::strictly_increasing(ks),
    ensures
        match mobile_upto(w, source, ks, k) {
            None => forall|j: int| 0 <= j < k ==> !is_mobile(w, w.cohorts[#[trigger] ks[j]], source),
            Some(c) => {
                &&& is_mobile(w, w.cohorts[c], source)
                &&& exists|j: int| 0 <= j < k && ks[j] == c
                &&& forall|j: int|
                    0 <= j < k && is_mobile(w, w.cohorts[#[trigger] ks[j]], source) ==> liquidity_per_household(
                        w.cohorts[ks[j]],
                    ) <= liquidity_per_household(w.cohorts[c]) && (liquidity_per_household(w.cohorts[ks[j]])
                        == liquidity_per_household(w.cohorts[c]) ==> c <= ks[j])
            },
        },
    decreases k,
{
    if k > 0 {
        lemma_mobile_upto_is_most_liquid(w, source, ks, k - 1);
        match mobile_upto(w, source, ks, k - 1) {
            None => {},
            Some(b) => {
                let j0 = choose|j: int| 0 <= j < k - 1 && ks[j] == b;
                assert(ks[j0] < ks[k - 1]);
            },
        }
    }
}

/// The household that leaves a region comes from its most liquid mobile cohort: a mobile
/// cohort of the region holding at least as much per household as every other, the
/// lower id among equals; there is none only where no cohort of the region is mobile.
/// (For a cohort ledger with a key order.)
pub proof fn lemma_mobile_cohort_is_most_liquid(w: WorldView, source: u32)
    requires
        is_key_order(w.cohorts, key_order(w.cohorts)),
    ensures
        match mobile_cohort(w, source) {
            None => forall|d: u32| #[trigger] w.cohorts.contains_key(d) ==> !is_mobile(w, w.cohorts[d], source),
            Some(c) => {
                &&& w.cohorts.contains_key(c)
                &&& is_mobile(w, w.cohorts[c], source)
                &&& forall|d: u32|
                    #[trigger] w.cohorts.contains_key(d) && is_mobile(w, w.cohorts[d], source) ==> liquidity_per_household(
                        w.cohorts[d],
                    ) <= liquidity_per_household(w.cohorts[c]) && (liquidity_per_household(w.cohorts[d])
                        == liquidity_per_household(w.cohorts[c]) ==> c <= d)
            },
        },
{
    let ks = key_order(w.cohorts);
    lemma_mobile_upto_is_most_liquid(w, source, ks, ks.len() as int);
    match mobile_cohort(w, source) {
        None => {
            assert forall|d: u32| #[trigger] w.cohorts.contains_key(d) implies !is_mobile(w, w.cohorts[d], source) by {
                assert(ks.to_set().contains(d));
                let j = choose|j: int| 0 <= j < ks.len() && ks[j] == d;
                assert(!is_mobile(w, w.cohorts[ks[j]], source));
            }
        },
        Some(c) => {
            let j0 = choose|j: int| 0 <= j < ks.len() && ks[j] == c;
            assert(ks.to_set().contains(ks[j0]));
            assert forall|d: u32|
                #[trigger] w.cohorts.contains_key(d) && is_mobile(w, w.cohorts[d], source) implies liquidity_per_household(
                    w.cohorts[d],
                ) <= liquidity_per_household(w.cohorts[c]) && (liquidity_per_household(w.cohorts[d])
                    == liquidity_per_household(w.cohorts[c]) ==> c <= d) by {
                assert(ks.to_set().contains(d));
                let j = choose|j: int| 0 <= j < ks.len() && ks[j] == d;
                assert(is_mobile(w, w.cohorts[ks[j]], source));
            }
        },
    }
}

/// One household's monthly share of a cohort's income for `people` of its members,
/// at least one minor unit.
pub open spec fn monthly_income_share(c: HouseholdCohort, people: int) -> int {
    if c.people@ == 0 {
        1
    } else {
        let share = tdiv(tdiv(c.annual_income@ * people, c.people@ as int), 12);
        let share = if share < 1 {
            1
        } else {
            share
        };
        if share > i64::MAX {
            i64::MAX as int
        } else {
            share
        }
    }
}

/// The members of a cohort that one of its households holds (rounded up).
pub open spec fn household_size(c: HouseholdCohort) -> int {
    (c.people@ + c.households - 1) / (c.households as int)
}

/// The share `part / whole` of an amount (truncated).
pub open spec fn people_share(amount: int, part: int, whole: int) -> int {
    tdiv(amount * part, whole)
}

/// The cohort left behind when one household of `c` leaves.
pub open spec fn remaining_cohort(c: HouseholdCohort) -> HouseholdCohort {
    let m = household_size(c);
    HouseholdCohort {
        people: Population::spec_from((c.people@ - m) as u64),
        households: (c.households - 1) as u64,
        annual_income: Money::spec_from(
            (c.annual_income@ - people_share(c.annual_income@ as int, m, c.people@ as int)) as i64,
        ),
        liquid_wealth: Money::spec_from(
            (c.liquid_wealth@ - people_share(c.liquid_wealth@ as int, m, c.people@ as int)) as i64,
        ),
        debt: Money::spec_from((c.debt@ - people_share(c.debt@ as int, m, c.people@ as int)) as i64),
        ..c
    }
}

/// The new cohort of the household that leaves `c` for `dest`, having paid `fee`.
pub open spec fn migrant_cohort(c: HouseholdCohort, id: u32, dest: RegionId, fee: int) -> HouseholdCohort {
    let m = household_size(c);
    HouseholdCohort {
        id: CohortId(id),
        region: dest,
        people: Population::spec_from(m as u64),
        households: 1,
        annual_income: Money::spec_from(people_share(c.annual_income@ as int, m, c.people@ as int) as i64),
        liquid_wealth: Money::spec_from(
            (people_share(c.liquid_wealth@ as int, m, c.people@ as int) - fee) as i64,
        ),
        debt: Money::spec_from(people_share(c.debt@ as int, m, c.people@ as int) as i64),
        ..c
    }
}

/// `n` advanced by one, staying at `u32::MAX`.
pub open spec fn next_id(n: u32) -> u32 {
    if n < u32::MAX {
        (n + 1) as u32
    } else {
        n
    }
}

/// One source region's turn: where its best opportunity and its most liquid mobile
/// cohort exist and that cohort holds a month's income share plus the fee, one household
/// moves: it becomes a new cohort (with id `next`) in the destination, its people move
/// between the regions' populations and its fee goes to the destination country's
/// treasury. The next free id, and the move made if any, come back too. `Err` where the
/// move would overflow or break the accounts.
pub open spec fn migration_step(w: WorldView, source: u32, next: u32, date: SimDate) -> Result<
    (WorldView, u32, Option<HouseholdMigration>),
    (),
> {
    match best_opportunity(w, source) {
        Err(e) => Err(e),
        Ok(None) => Ok((w, next, None)),
        Ok(Some(opp)) => match mobile_cohort(w, source) {
            None => Ok((w, next, None)),
            Some(cid) => {
                let c = w.cohorts[cid];
                let m = household_size(c);
                let fee = opp.relocation_fee@ as int;
                let required = monthly_income_share(c, m) + fee;
                let dest = opp.destination@;
                if required > i64::MAX {
                    Err(())
                } else if c.liquid_wealth@ < required {
                    Ok((w, next_id(next), None))
                } else if w.regions[source].population@ < m || w.regions[dest].population@ + m
                    > u64::MAX || !w.countries.contains_key(w.regions[dest].country@)
                    || w.countries[w.regions[dest].country@].indicators.treasury@ + fee > i64::MAX {
                    Err(())
                } else {
                    let migrant = migrant_cohort(c, next, opp.destination, fee);
                    let row = HouseholdMigration {
                        source_cohort: CohortId(cid),
                        migrant_cohort: CohortId(next),
                        from_region: RegionId(source),
                        to_region: opp.destination,
                        people: migrant.people,
                        households: migrant.households,
                        liquid_wealth: migrant.liquid_wealth,
                        debt: migrant.debt,
                        relocation_fee: opp.relocation_fee,
                        destination_vacancy_months: opp.vacancy_months,
                        service_advantage_basis_points: opp.service_advantage,
                        destination_housing_pressure_basis_points: opp.housing_pressure,
                    };
                    let country_id = w.regions[dest].country@;
                    let country = w.countries[country_id];
                    let indicators = crate::world::CountryIndicators {
                        treasury: Money::spec_from((country.indicators.treasury@ + fee) as i64),
                        ..country.indicators
                    };
                    let regions = w.regions.insert(
                        source,
                        crate::world::Region {
                            population: Population::spec_from((w.regions[source].population@ - m) as u64),
                            ..w.regions[source]
                        },
                    );
                    let regions = regions.insert(
                        dest,
                        crate::world::Region {
                            population: Population::spec_from((regions[dest].population@ + m) as u64),
                            ..regions[dest]
                        },
                    );
                    Ok(
                        (
                            WorldView {
                                cohorts: w.cohorts.insert(cid, remaining_cohort(c)).insert(next, migrant),
                                regions,
                                countries: w.countries.insert(
                                    country_id,
                                    crate::world::Country { indicators, ..country },
                                ),
                                events: w.events.push(
                                    EventEnvelope { date, event: DomainEvent::HouseholdMigrated { migration: row } },
                                ),
                                ..w
                            },
                            next_id(next),
                            Some(row),
                        ),
                    )
                }
            },
        },
    }
}

/// The source regions `ks[0..k]` take their turns in order.
pub open spec fn migrate_upto(w: WorldView, ks: Seq<u32>, k: int, next: u32, date: SimDate) -> Result<
    (WorldView, u32, Seq<HouseholdMigration>),
    (),
>
    decreases k,
{
    if k <= 0 {
        Ok((w, next, seq![]))
    } else {
        match migrate_upto(w, ks, k - 1, next, date) {
            Err(e) => Err(e),
            Ok((w1, n1, rows)) => match migration_step(w1, ks[k - 1], n1, date) {
                Err(e) => Err(e),
                Ok((w2, n2, row)) => Ok(
                    (
                        w2,
                        n2,
                        match row {
                            Some(r) => rows.push(r),
                            None => rows,
                        },
                    ),
                ),
            },
        }
    }
}

/// The first cohort id after every one in use.
pub open spec fn first_free_cohort_id(w: WorldView) -> u32 {
    let ks = key_order(w.cohorts);
    if ks.len() == 0 {
        1
    } else {
        next_id(ks.last())
    }
}

/// A year's internal migration: every region, in id order, takes its turn.
pub open spec fn annual_migration(w: WorldView, date: SimDate) -> Result<(WorldView, Seq<HouseholdMigration>), ()> {
    let ks = key_order(w.regions);
    match migrate_upto(w, ks, ks.len() as int, first_free_cohort_id(w), date) {
        Err(e) => Err(e),
        Ok((w2, _, rows)) => Ok((w2, rows)),
    }
}

/// An error among the first regions stays the answer for more regions.
proof fn lemma_best_err_sticks(w: WorldView, source: u32, ks: Seq<u32>, k: int, n: int)
    requires
        0 <= k <= n,
        best_upto(w, source, ks, k) is Err,
    ensures
        best_upto(w, source, ks, n) is Err,
    decreases n - k,
{
    if k < n {
        lemma_best_err_sticks(w, source, ks, k, n - 1);
    }
}

impl World {
    /// The households living in `region`, or `None` when they exceed `u64`.
    fn households_of(&self, region: u32) -> (r: Option<u64>)
        ensures
            r is None <==> occupied(self@, region) > u64::MAX,
            r matches Some(t) ==> t as int == occupied(self@, region),
    {
        let ks = keys_in_order(&self.cohorts);
        let mut total: u128 = 0;
        let mut i: usize = 0;
        while i < ks.len()
            invariant
                ks@ == key_order(self@.cohorts),
                forall|j: int| 0 <= j < ks@.len() ==> self@.cohorts.contains_key(#[trigger] ks@[j]),
                i <= ks.len(),
                total as int == households_in(self@.cohorts, ks@.take(i as int), region),
                total <= i * 0xffff_ffff_ffff_ffffu128,
            decreases ks.len() - i,
        {
            let c = self.cohorts.get(&ks[i]).unwrap();
            proof {
                assert(ks@.take(i + 1).drop_last() =~= ks@.take(i as int));
            }
            if c.region.get() == region {
                total = total + c.households as u128;
            }
            i = i + 1;
        }
        proof {
            assert(ks@.take(ks@.len() as int) =~= ks@);
        }
        if total > u64::MAX as u128 {
            None
        } else {
            Some(total as u64)
        }
    }

    /// The public-service score of a region.
    fn service_score_of(&self, r: u32) -> (s: i32)
        ensures
            s as int == service_score(self@, r),
    {
        match self.regional_public_services.get(&r) {
            Some(v) => {
                let total: i32 = v.healthcare.get() as i32 + v.infrastructure.get() as i32
                    + v.administration.get() as i32;
                total / 3
            },
            None => 5_000,
        }
    }

    /// What moving from `source` to `dest` offers (see `opportunity`).
    fn opportunity_at(&self, source: u32, dest: u32) -> (r: Result<Option<MigrationOpportunity>, ()>)
        requires
            self@.regions.contains_key(source),
            self@.regional_labor_market.contains_key(source),
        ensures
            r == opportunity(self@, source, dest),
    {
        let source_labor = *self.regional_labor_market.get(&source).unwrap();
        let source_country = self.regions.get(&source).unwrap().country;
        if dest == source {
            return Ok(None);
        }
        let region = match self.regions.get(&dest) {
            Some(region) => region,
            None => {
                return Ok(None);
            },
        };
        if region.country != source_country {
            return Ok(None);
        }
        let labor = match self.regional_labor_market.get(&dest) {
            Some(labor) => *labor,
            None => {
                return Ok(None);
            },
        };
        let advantage: i32 = self.service_score_of(dest) - self.service_score_of(source);
        if labor.vacancy_pressure_months < PRESSURE_GATE_MONTHS || labor.vacancies <= labor.available_workers
            || advantage < -MAX_SERVICE_DISADVANTAGE_BPS {
            return Ok(None);
        }
        let housing = match self.regional_housing.get(&dest) {
            Some(housing) => *housing,
            None => {
                return Ok(None);
            },
        };
        let occupied_now = match self.households_of(dest) {
            Some(t) => t,
            None => {
                return Err(());
            },
        };
        if occupied_now == u64::MAX {
            return Ok(None);
        }
        let projected: u64 = occupied_now + 1;
        if projected > housing.dwelling_capacity {
            return Ok(None);
        }
        let ratio: u128 = projected as u128 * 10_000 / housing.dwelling_capacity as u128;
        let pressure: u16 = if ratio > 10_000 {
            10_000
        } else {
            ratio as u16
        };
        proof {
            let b = housing.base_monthly_cost@ as int;
            let f = 5_000 + pressure as int;
            assert(-0x8000_0000_0000_0000 * 15_000 <= b * f <= 0x8000_0000_0000_0000 * 15_000) by (
            nonlinear_arith)
                requires
                    -0x8000_0000_0000_0000 <= b <= 0x8000_0000_0000_0000,
                    5_000 <= f <= 15_000,
            ;
        }
        let raw_fee: i128 = housing.base_monthly_cost.minor_units() as i128 * (5_000 + pressure as i128)
            / 10_000;
        let floored_fee: i128 = if raw_fee < 1 {
            1
        } else {
            raw_fee
        };
        let fee: i64 = if floored_fee > i64::MAX as i128 {
            i64::MAX
        } else {
            floored_fee as i64
        };
        let clamped: i16 = if advantage < i16::MIN as i32 {
            i16::MIN
        } else if advantage > i16::MAX as i32 {
            i16::MAX
        } else {
            advantage as i16
        };
        let score: i32 = labor.vacancy_pressure_months as i32 * 200
            + source_labor.unemployment_pressure_months as i32 * 100 + advantage - pressure as i32 / 2;
        Ok(
            Some(
                MigrationOpportunity {
                    destination: RegionId::new(dest),
                    vacancy_months: labor.vacancy_pressure_months,
                    service_advantage: clamped,
                    housing_pressure: pressure,
                    relocation_fee: Money::from_minor_units(fee),
                    score,
                },
            ),
        )
    }

    /// The best move out of `source` (see `best_opportunity`).
    fn best_opportunity_of(&self, source: u32) -> (r: Result<Option<MigrationOpportunity>, ()>)
        ensures
            r == best_opportunity(self@, source),
    {
        if !self.regions.contains_key(&source) {
            return Ok(None);
        }
        let labor = match self.regional_labor_market.get(&source) {
            Some(labor) => *labor,
            None => {
                return Ok(None);
            },
        };
        if labor.unemployment_pressure_months < PRESSURE_GATE_MONTHS || labor.available_workers
            <= labor.vacancies {
            return Ok(None);
        }
        let ks = keys_in_order(&self.regions);
        let mut best: Option<MigrationOpportunity> = None;
        let mut i: usize = 0;
        while i < ks.len()
            invariant
                ks@ == key_order(self@.regions),
                self@.regions.contains_key(source),
                self@.regional_labor_market.contains_key(source),
                i <= ks.len(),
                best_upto(self@, source, ks@, i as int) == Ok::<Option<MigrationOpportunity>, ()>(best),
                best_opportunity(self@, source) == best_upto(self@, source, ks@, ks@.len() as int),
            decreases ks.len() - i,
        {
            match self.opportunity_at(source, ks[i]) {
                Err(()) => {
                    proof {
                        assert(best_upto(self@, source, ks@, i + 1) is Err);
                        lemma_best_err_sticks(self@, source, ks@, i + 1, ks@.len() as int);
                    }
                    return Err(());
                },
                Ok(None) => {},
                Ok(Some(o)) => {
                    match best {
                        Some(b) => {
                            if o.score > b.score {
                                best = Some(o);
                            }
                        },
                        None => {
                            best = Some(o);
                        },
                    }
                },
            }
            i = i + 1;
        }
        Ok(best)
    }

    /// Whether a cohort's workers hold an active employment agreement.
    fn has_active_agreement(&self, cohort: u32) -> (r: bool)
        ensures
            r == actively_employed(self@, cohort),
    {
        let ks = pair_keys_in_order(&self.employment_agreements);
        let mut i: usize = 0;
        while i < ks.len()
            invariant
                is_pair_key_order(self@.employment_agreements, ks@),
                forall|j: int| 0 <= j < ks@.len() ==> self@.employment_agreements.contains_key(#[trigger] ks@[j]),
                i <= ks.len(),
                forall|j: int|
                    0 <= j < i ==> !((#[trigger] ks@[j]).1 == cohort
                        && self@.employment_agreements[ks@[j]].active),
            decreases ks.len() - i,
        {
            let k = ks[i];
            let a = self.employment_agreements.get(&k).unwrap();
            if k.1 == cohort && a.active {
                proof {
                    assert(self@.employment_agreements.contains_key(k));
                }
                return true;
            }
            i = i + 1;
        }
        proof {
            assert forall|k: (u32, u32)| #[trigger] self@.employment_agreements.contains_key(k) implies !(k.1
                == cohort && self@.employment_agreements[k].active) by {
                assert(ks@.to_set().contains(k));
                let j = choose|j: int| 0 <= j < ks@.len() && ks@[j] == k;
            }
        }
        false
    }

    /// The most liquid mobile cohort of `source` (see `mobile_cohort`).
    fn mobile_cohort_of(&self, source: u32) -> (r: Option<u32>)
        ensures
            r == mobile_cohort(self@, source),
            r matches Some(c) ==> self@.cohorts.contains_key(c) && is_mobile(self@, self@.cohorts[c], source),
    {
        let ks = keys_in_order(&self.cohorts);
        let mut best: Option<u32> = None;
        let mut best_liquidity: i64 = 0;
        let mut i: usize = 0;
        while i < ks.len()
            invariant
                ks@ == key_order(self@.cohorts),
                forall|j: int| 0 <= j < ks@.len() ==> self@.cohorts.contains_key(#[trigger] ks@[j]),
                i <= ks.len(),
                best == mobile_upto(self@, source, ks@, i as int),
                best matches Some(b) ==> self@.cohorts.contains_key(b) && best_liquidity as int
                    == liquidity_per_household(self@.cohorts[b]),
            decreases ks.len() - i,
        {
            let c = *self.cohorts.get(&ks[i]).unwrap();
            let mobile = c.region.get() == source && c.employment == EmploymentStatus::Unemployed && (
            c.age_band == AgeBand::Adult || c.age_band == AgeBand::Mature) && c.people.people() > 1
                && c.households > 1 && !self.has_active_agreement(c.id.get());
            if mobile {
                let divisor: i64 = if c.households > i64::MAX as u64 {
                    i64::MAX
                } else {
                    c.households as i64
                };
                let liquidity: i64 = c.liquid_wealth.minor_units() / divisor;
                match best {
                    Some(_) => {
                        if liquidity > best_liquidity {
                            best = Some(ks[i]);
                            best_liquidity = liquidity;
                        }
                    },
                    None => {
                        best = Some(ks[i]);
                        best_liquidity = liquidity;
                    },
                }
            }
            i = i + 1;
        }
        proof {
            lemma_mobile_is_cohort(self@, source, ks@, ks@.len() as int);
        }
        best
    }
}

/// The share `part / whole` of an amount, truncated toward zero.
pub(crate) fn share_of(amount: i64, part: u64, whole: u64) -> (r: i64)
    requires
        1 <= part <= whole,
    ensures
        r as int == people_share(amount as int, part as int, whole as int),
        amount >= 0 ==> 0 <= r <= amount,
        amount < 0 ==> amount <= r <= 0,
{
    let a: i128 = amount as i128;
    if a >= 0 {
        proof {
            let aa = a as int;
            let pp = part as int;
            let ww = whole as int;
            assert(0 <= aa * pp <= 0x8000_0000_0000_0000 * 0xffff_ffff_ffff_ffff) by (nonlinear_arith)
                requires
                    0 <= aa <= 0x8000_0000_0000_0000,
                    1 <= pp <= 0xffff_ffff_ffff_ffff,
            ;
            assert(0 <= (aa * pp) / ww <= aa) by (nonlinear_arith)
                requires
                    0 <= aa,
                    1 <= pp <= ww,
            ;
        }
        (a * part as i128 / whole as i128) as i64
    } else {
        let n: i128 = -a;
        proof {
            let aa = n as int;
            let pp = part as int;
            let ww = whole as int;
            assert(0 <= aa * pp <= 0x8000_0000_0000_0000 * 0xffff_ffff_ffff_ffff) by (nonlinear_arith)
                requires
                    0 <= aa <= 0x8000_0000_0000_0000,
                    1 <= pp <= 0xffff_ffff_ffff_ffff,
            ;
            assert(0 <= (aa * pp) / ww <= aa) by (nonlinear_arith)
                requires
                    0 <= aa,
                    1 <= pp <= ww,
            ;
            assert(amount * part == -(aa * pp)) by (nonlinear_arith)
                requires
                    aa == -amount,
                    pp == part,
            ;
        }
        (-(n * part as i128 / whole as i128)) as i64
    }
}

impl World {
    /// One source region's turn of the annual migration (see `migration_step`).
    fn migrate_from_region(&mut self, source: u32, next: u32, date: SimDate) -> (r: (u32, Option<HouseholdMigration>))
        requires
            migration_step(old(self)@, source, next, date) is Ok,
        ensures
            migration_step(old(self)@, source, next, date) == Ok::<
                (WorldView, u32, Option<HouseholdMigration>),
                (),
            >((final(self)@, r.0, r.1)),
    {
        let opp = match self.best_opportunity_of(source) {
            Ok(Some(o)) => o,
            _ => {
                return (next, None);
            },
        };
        let cid = match self.mobile_cohort_of(source) {
            Some(c) => c,
            None => {
                return (next, None);
            },
        };
        let ghost w = self@;
        proof {
            let rs = key_order(w.regions);
            lemma_best_is_opportunity(w, source, rs, rs.len() as int);
            assert(best_opportunity(w, source) == Ok::<Option<MigrationOpportunity>, ()>(Some(opp)));
        }
        let c = *self.cohorts.get(&cid).unwrap();
        proof {
            assert(c == w.cohorts[cid]);
            assert(is_mobile(w, c, source));
        }
        let following: u32 = if next < u32::MAX {
            next + 1
        } else {
            next
        };
        let people: u64 = c.people.people();
        let m: u64 = ((people as u128 + c.households as u128 - 1) / c.households as u128) as u64;
        proof {
            let p = people as int;
            let h = c.households as int;
            assert(1 <= (p + h - 1) / h <= p) by (nonlinear_arith)
                requires
                    p > 1,
                    h > 1,
            ;
            assert(m as int == household_size(c));
        }
        let share: i64 = if people == 0 {
            1
        } else {
            let per_person: i64 = share_of(c.annual_income.minor_units(), m, people);
            let raw: i128 = per_person as i128 / 12;
            if raw < 1 {
                1
            } else if raw > i64::MAX as i128 {
                i64::MAX
            } else {
                raw as i64
            }
        };
        let fee: i64 = opp.relocation_fee.minor_units();
        let required: i128 = share as i128 + fee as i128;
        if (c.liquid_wealth.minor_units() as i128) < required {
            return (following, None);
        }
        let dest: u32 = opp.destination.get();
        proof {
            assert(c.liquid_wealth@ >= share + fee);
            assert(w.regions[source].population@ >= m);
            assert(w.regions[dest].population@ + m <= u64::MAX);
            assert(w.countries.contains_key(w.regions[dest].country@));
            assert(w.countries[w.regions[dest].country@].indicators.treasury@ + fee <= i64::MAX);
        }
        let wealth_share: i64 = share_of(c.liquid_wealth.minor_units(), m, people);
        let debt_share: i64 = share_of(c.debt.minor_units(), m, people);
        let income_share: i64 = share_of(c.annual_income.minor_units(), m, people);
        let remaining = HouseholdCohort {
            people: Population::new(people - m),
            households: c.households - 1,
            annual_income: Money::from_minor_units(c.annual_income.minor_units() - income_share),
            liquid_wealth: Money::from_minor_units(c.liquid_wealth.minor_units() - wealth_share),
            debt: Money::from_minor_units(c.debt.minor_units() - debt_share),
            ..c
        };
        let migrant = HouseholdCohort {
            id: CohortId::new(next),
            region: opp.destination,
            people: Population::new(m),
            households: 1,
            annual_income: Money::from_minor_units(income_share),
            liquid_wealth: Money::from_minor_units(wealth_share - fee),
            debt: Money::from_minor_units(debt_share),
            ..c
        };
        let row = HouseholdMigration {
            source_cohort: CohortId::new(cid),
            migrant_cohort: CohortId::new(next),
            from_region: RegionId::new(source),
            to_region: opp.destination,
            people: migrant.people,
            households: migrant.households,
            liquid_wealth: migrant.liquid_wealth,
            debt: migrant.debt,
            relocation_fee: opp.relocation_fee,
            destination_vacancy_months: opp.vacancy_months,
            service_advantage_basis_points: opp.service_advantage,
            destination_housing_pressure_basis_points: opp.housing_pressure,
        };
        self.cohorts.insert(cid, remaining);
        self.cohorts.insert(next, migrant);
        let mut from = self.regions.remove(&source).unwrap();
        from.population = Population::new(from.population.people() - m);
        self.regions.insert(source, from);
        let mut to = self.regions.remove(&dest).unwrap();
        to.population = Population::new(to.population.people() + m);
        let country_id: u32 = to.country.get();
        self.regions.insert(dest, to);
        let mut country = self.countries.remove(&country_id).unwrap();
        country.indicators.treasury = Money::from_minor_units(country.indicators.treasury.minor_units() + fee);
        self.countries.insert(country_id, country);
        self.events.append(date, DomainEvent::HouseholdMigrated { migration: row });
        proof {
            assert(fee as int == opp.relocation_fee@);
            assert(following == next_id(next));
            assert(remaining == remaining_cohort(c));
            assert(migrant == migrant_cohort(c, next, opp.destination, fee as int));
            assert(self@.cohorts =~= w.cohorts.insert(cid, remaining_cohort(c)).insert(
                next,
                migrant_cohort(c, next, opp.destination, fee as int),
            ));
            let dest_country = w.regions[dest].country@;
            assert(country_id == dest_country);
            let regions1 = w.regions.insert(
                source,
                crate::world::Region {
                    population: Population::spec_from((w.regions[source].population@ - m) as u64),
                    ..w.regions[source]
                },
            );
            let regions2 = regions1.insert(
                dest,
                crate::world::Region {
                    population: Population::spec_from((regions1[dest].population@ + m) as u64),
                    ..regions1[dest]
                },
            );
            assert(self@.regions =~= regions2);
            let ctry = w.countries[dest_country];
            let indicators = crate::world::CountryIndicators {
                treasury: Money::spec_from((ctry.indicators.treasury@ + fee) as i64),
                ..ctry.indicators
            };
            assert(self@.countries =~= w.countries.insert(
                dest_country,
                crate::world::Country { indicators, ..ctry },
            ));
            assert(self@.events =~= w.events.push(
                EventEnvelope { date, event: DomainEvent::HouseholdMigrated { migration: row } },
            ));
            assert(migration_step(w, source, next, date) is Ok);
        }
        (following, Some(row))
    }
}

/// The cohort picked is a mobile cohort.
proof fn lemma_mobile_is_cohort(w: WorldView, source: u32, ks: Seq<u32>, k: int)
    requires
        0 <= k <= ks.len(),
        forall|j: int| 0 <= j < ks.len() ==> w.cohorts.contains_key(#[trigger] ks[j]),
    ensures
        mobile_upto(w, source, ks, k) matches Some(c) ==> w.cohorts.contains_key(c) && is_mobile(
            w,
            w.cohorts[c],
            source,
        ),
    decreases k,
{
    if k > 0 {
        lemma_mobile_is_cohort(w, source, ks, k - 1);
    }
}

/// The opportunity picked leads to another registered region and costs at least one
/// minor unit.
proof fn lemma_best_is_opportunity(w: WorldView, source: u32, ks: Seq<u32>, k: int)
    requires
        0 <= k <= ks.len(),
    ensures
        best_upto(w, source, ks, k) matches Ok(Some(o)) ==> w.regions.contains_key(o.destination@)
            && o.destination@ != source && 1 <= o.relocation_fee@,
    decreases k,
{
    if k > 0 {
        lemma_best_is_opportunity(w, source, ks, k - 1);
    }
}

/// A migration that completes completes on every prefix of the regions too.
proof fn lemma_migrate_prefix_ok(w: WorldView, ks: Seq<u32>, j: int, k: int, next: u32, date: SimDate)
    requires
        0 <= j <= k,
        migrate_upto(w, ks, k, next, date) is Ok,
    ensures
        migrate_upto(w, ks, j, next, date) is Ok,
    decreases k - j,
{
    if j < k {
        lemma_migrate_prefix_ok(w, ks, j, k - 1, next, date);
    }
}

impl World {
    /// Runs a year's internal migration (see `annual_migration`): each region, in id order,
    /// may send one household to the best destination of its country; returns the moves.
    /// It asks that no move overflows a count or an account or leaves a region with fewer
    /// people than moved away. Where a fresh cohort id remains for every region, the people,
    /// the debt, and the wealth plus the treasuries are what they were, and regions whose
    /// populations matched their cohorts still do.
    pub fn execute_annual_internal_migration(&mut self, date: SimDate) -> (r: Vec<HouseholdMigration>)
        requires
            annual_migration(old(self)@, date) is Ok,
        ensures
            annual_migration(old(self)@, date) == Ok::<(WorldView, Seq<HouseholdMigration>), ()>(
                (final(self)@, r@),
            ),
            first_free_cohort_id(old(self)@) + old(self)@.regions.len() <= u32::MAX ==> {
                &&& total_people(final(self)@) == total_people(old(self)@)
                &&& total_debt(final(self)@) == total_debt(old(self)@)
                &&& total_wealth(final(self)@) + total_treasury(final(self)@) == total_wealth(old(self)@)
                    + total_treasury(old(self)@)
                &&& population_accounted(old(self)@) ==> population_accounted(final(self)@)
            },
    {
        let ghost w0 = self@;
        let country_ids = keys_in_order(&self.countries);
        let cohort_ids = keys_in_order(&self.cohorts);
        let mut next: u32 = if cohort_ids.len() == 0 {
            1
        } else {
            let last = cohort_ids[cohort_ids.len() - 1];
            if last < u32::MAX {
                last + 1
            } else {
                last
            }
        };
        let ks = keys_in_order(&self.regions);
        proof {
            assert(next == first_free_cohort_id(w0));
        }
        let mut rows: Vec<HouseholdMigration> = Vec::new();
        let mut i: usize = 0;
        while i < ks.len()
            invariant
                ks@ == key_order(w0.regions),
                i <= ks.len(),
                migrate_upto(w0, ks@, ks@.len() as int, first_free_cohort_id(w0), date) is Ok,
                migrate_upto(w0, ks@, i as int, first_free_cohort_id(w0), date) == Ok::<
                    (WorldView, u32, Seq<HouseholdMigration>),
                    (),
                >((self@, next, rows@)),
            decreases ks.len() - i,
        {
            proof {
                lemma_migrate_prefix_ok(w0, ks@, i + 1, ks@.len() as int, first_free_cohort_id(w0), date);
            }
            let (following, row) = self.migrate_from_region(ks[i], next, date);
            next = following;
            match row {
                Some(m) => {
                    rows.push(m);
                },
                None => {},
            }
            i = i + 1;
        }
        proof {
            if first_free_cohort_id(w0) + w0.regions.len() <= u32::MAX {
                assert(ks@.len() == w0.regions.len());
                lemma_migration_conserves(w0, date);
                if population_accounted(w0) {
                    lemma_migration_keeps_population_accounts(w0, date);
                }
            }
        }
        rows
    }
}

/// The sum of `f` over the entries `ks` of `m`.
pub open spec fn key_sum<V>(m: Map<u32, V>, ks: Seq<u32>, f: spec_fn(V) -> int) -> int
    decreases ks.len(),
{
    if ks.len() == 0 {
        0
    } else {
        key_sum(m, ks.drop_last(), f) + f(m[ks.last()])
    }
}

/// The people of all household cohorts.
pub open spec fn total_people(w: WorldView) -> int {
    key_sum(w.cohorts, key_order(w.cohorts), |c: HouseholdCohort| c.people@ as int)
}

/// The liquid wealth of all household cohorts.
pub open spec fn total_wealth(w: WorldView) -> int {
    key_sum(w.cohorts, key_order(w.cohorts), |c: HouseholdCohort| c.liquid_wealth@ as int)
}

/// The debt of all household cohorts.
pub open spec fn total_debt(w: WorldView) -> int {
    key_sum(w.cohorts, key_order(w.cohorts), |c: HouseholdCohort| c.debt@ as int)
}

/// The treasuries of all countries.
pub open spec fn total_treasury(w: WorldView) -> int {
    key_sum(w.countries, key_order(w.countries), |c: crate::world::Country| c.indicators.treasury@ as int)
}

/// Changing an entry that `ks` does not list leaves the sum alone.
proof fn lemma_key_sum_other<V>(m: Map<u32, V>, ks: Seq<u32>, k: u32, v: V, f: spec_fn(V) -> int)
    requires
        !ks.contains(k),
    ensures
        key_sum(m.insert(k, v), ks, f) == key_sum(m, ks, f),
    decreases ks.len(),
{
    if ks.len() > 0 {
        assert(!ks.drop_last().contains(k)) by {
            if ks.drop_last().contains(k) {
                let j = choose|j: int| 0 <= j < ks.drop_last().len() && ks.drop_last()[j] == k;
                assert(ks[j] == k);
            }
        }
        assert(ks.last() != k) by {
            assert(ks[ks.len() - 1] == ks.last());
        }
        lemma_key_sum_other(m, ks.drop_last(), k, v, f);
    }
}

/// Changing an entry listed once in `ks` changes the sum by the difference.
proof fn lemma_key_sum_update<V>(m: Map<u32, V>, ks: Seq<u32>, k: u32, v: V, f: spec_fn(V) -> int)
    requires
        crate::ordered::strictly_increasing(ks),
        ks.contains(k),
    ensures
        key_sum(m.insert(k, v), ks, f) == key_sum(m, ks, f) - f(m[k]) + f(v),
    decreases ks.len(),
{
    let init = ks.drop_last();
    if ks.last() == k {
        assert(!init.contains(k)) by {
            if init.contains(k) {
                let j = choose|j: int| 0 <= j < init.len() && init[j] == k;
                assert(ks[j] < ks[ks.len() - 1]);
            }
        }
        lemma_key_sum_other(m, init, k, v, f);
    } else {
        assert(init.contains(k)) by {
            let j = choose|j: int| 0 <= j < ks.len() && ks[j] == k;
            assert(j != ks.len() - 1);
            assert(init[j] == k);
        }
        lemma_key_sum_update(m, init, k, v, f);
    }
}

/// A new key above every key of `m` comes last in the key order.
proof fn lemma_key_order_push<V>(m: Map<u32, V>, n: u32, v: V)
    requires
        is_key_order(m, key_order(m)),
        forall|k: u32| #[trigger] m.contains_key(k) ==> k < n,
    ensures
        key_order(m.insert(n, v)) == key_order(m).push(n),
        is_key_order(m.insert(n, v), key_order(m.insert(n, v))),
{
    let ks = key_order(m);
    let s = ks.push(n);
    assert forall|i: int, j: int| 0 <= i < j < s.len() implies s[i] < s[j] by {
        if j == s.len() - 1 {
            assert(ks.to_set().contains(ks[i]));
        }
    }
    assert(s.to_set() =~= m.insert(n, v).dom()) by {
        assert forall|x: u32| s.to_set().contains(x) <==> m.insert(n, v).dom().contains(x) by {
            if s.to_set().contains(x) {
                let i = choose|i: int| 0 <= i < s.len() && s[i] == x;
                if i < ks.len() {
                    assert(ks[i] == x);
                    assert(ks.to_set().contains(x));
                }
            }
            if m.insert(n, v).dom().contains(x) && x != n {
                assert(ks.to_set().contains(x));
                let i = choose|i: int| 0 <= i < ks.len() && ks[i] == x;
                assert(s[i] == x);
            }
            if x == n {
                assert(s[s.len() - 1] == n);
            }
        }
    }
    assert(is_key_order(m.insert(n, v), s));
    lemma_increasing_unique_order(m.insert(n, v), s);
}

/// The key order of a map is the increasing sequence of its keys.
proof fn lemma_increasing_unique_order<V>(m: Map<u32, V>, s: Seq<u32>)
    requires
        is_key_order(m, s),
    ensures
        key_order(m) == s,
        is_key_order(m, key_order(m)),
{
    crate::ordered::lemma_key_order_same_dom(m, m, s);
}

/// A sum over the key order after changing one existing entry.
pub(crate) proof fn lemma_total_update<V>(m: Map<u32, V>, k: u32, v: V, f: spec_fn(V) -> int)
    requires
        is_key_order(m, key_order(m)),
        m.contains_key(k),
    ensures
        key_order(m.insert(k, v)) == key_order(m),
        is_key_order(m.insert(k, v), key_order(m.insert(k, v))),
        key_sum(m.insert(k, v), key_order(m.insert(k, v)), f) == key_sum(m, key_order(m), f) - f(m[k])
            + f(v),
{
    let ks = key_order(m);
    assert(m.insert(k, v).dom() =~= m.dom());
    crate::ordered::lemma_key_order_same_dom(m, m.insert(k, v), ks);
    assert(ks.to_set().contains(k));
    lemma_key_sum_update(m, ks, k, v, f);
}

/// A sum over the key order after adding an entry above every key.
pub(crate) proof fn lemma_total_push<V>(m: Map<u32, V>, n: u32, v: V, f: spec_fn(V) -> int)
    requires
        is_key_order(m, key_order(m)),
        forall|k: u32| #[trigger] m.contains_key(k) ==> k < n,
    ensures
        is_key_order(m.insert(n, v), key_order(m.insert(n, v))),
        key_sum(m.insert(n, v), key_order(m.insert(n, v)), f) == key_sum(m, key_order(m), f) + f(v),
{
    lemma_key_order_push(m, n, v);
    let ks = key_order(m);
    assert(!ks.contains(n)) by {
        if ks.contains(n) {
            let j = choose|j: int| 0 <= j < ks.len() && ks[j] == n;
            assert(ks.to_set().contains(n));
        }
    }
    assert(ks.push(n).drop_last() =~= ks);
    lemma_key_sum_other(m, ks, n, v, f);
}

/// Bounds of a truncated share of an amount.
proof fn lemma_share_bounds(amount: int, part: int, whole: int)
    requires
        1 <= part <= whole,
    ensures
        amount >= 0 ==> 0 <= people_share(amount, part, whole) <= amount,
        amount < 0 ==> amount <= people_share(amount, part, whole) <= 0,
{
    if amount >= 0 {
        assert(0 <= (amount * part) / whole <= amount) by (nonlinear_arith)
            requires
                0 <= amount,
                1 <= part <= whole,
        ;
    } else {
        let n = -amount;
        assert(0 <= (n * part) / whole <= n) by (nonlinear_arith)
            requires
                0 <= n,
                1 <= part <= whole,
        ;
        assert(amount * part == -(n * part)) by (nonlinear_arith)
            requires
                n == -amount,
        ;
    }
}

/// The state a migration keeps along the way: valid key orders, and a next cohort id
/// above every id in use.
pub open spec fn migration_ready(w: WorldView, next: u32) -> bool {
    &&& is_key_order(w.cohorts, key_order(w.cohorts))
    &&& is_key_order(w.countries, key_order(w.countries))
    &&& forall|k: u32| #[trigger] w.cohorts.contains_key(k) ==> k < next
}

/// One region's turn keeps people, debt, and wealth plus treasury.
proof fn lemma_step_conserves(w: WorldView, source: u32, next: u32, date: SimDate)
    requires
        migration_ready(w, next),
        next < u32::MAX,
        migration_step(w, source, next, date) is Ok,
    ensures
        ({
            let (w2, n2, _) = migration_step(w, source, next, date)->Ok_0;
            &&& migration_ready(w2, n2)
            &&& n2 <= next + 1
            &&& total_people(w2) == total_people(w)
            &&& total_debt(w2) == total_debt(w)
            &&& total_wealth(w2) + total_treasury(w2) == total_wealth(w) + total_treasury(w)
        }),
{
    let (w2, n2, row) = migration_step(w, source, next, date)->Ok_0;
    if row is Some {
        let opp = best_opportunity(w, source)->Ok_0->Some_0;
        let cid = mobile_cohort(w, source)->Some_0;
        let ks = key_order(w.cohorts);
        lemma_mobile_is_cohort(w, source, ks, ks.len() as int);
        let rs = key_order(w.regions);
        lemma_best_is_opportunity(w, source, rs, rs.len() as int);
        let c = w.cohorts[cid];
        let p = c.people@ as int;
        let h = c.households as int;
        let m = household_size(c);
        assert(1 <= (p + h - 1) / h <= p) by (nonlinear_arith)
            requires
                p > 1,
                h > 1,
        ;
        let fee = opp.relocation_fee@ as int;
        lemma_share_bounds(c.liquid_wealth@ as int, m, p);
        lemma_share_bounds(c.debt@ as int, m, p);
        lemma_share_bounds(c.annual_income@ as int, m, p);
        let rem = remaining_cohort(c);
        let mig = migrant_cohort(c, next, opp.destination, fee);
        assert(rem.people@ == p - m);
        assert(mig.people@ == m);
        assert(rem.liquid_wealth@ == c.liquid_wealth@ - people_share(c.liquid_wealth@ as int, m, p));
        assert(mig.liquid_wealth@ == people_share(c.liquid_wealth@ as int, m, p) - fee);
        assert(rem.debt@ == c.debt@ - people_share(c.debt@ as int, m, p));
        assert(mig.debt@ == people_share(c.debt@ as int, m, p));
        let c1 = w.cohorts.insert(cid, rem);
        let fp = |x: HouseholdCohort| x.people@ as int;
        let fw = |x: HouseholdCohort| x.liquid_wealth@ as int;
        let fd = |x: HouseholdCohort| x.debt@ as int;
        lemma_total_update(w.cohorts, cid, rem, fp);
        lemma_total_update(w.cohorts, cid, rem, fw);
        lemma_total_update(w.cohorts, cid, rem, fd);
        assert forall|k: u32| #[trigger] c1.contains_key(k) implies k < next by {
            if k != cid {
                assert(w.cohorts.contains_key(k));
            }
        }
        lemma_total_push(c1, next, mig, fp);
        lemma_total_push(c1, next, mig, fw);
        lemma_total_push(c1, next, mig, fd);
        let cc = w.regions[opp.destination@].country@;
        let ctry = w.countries[cc];
        let nc = crate::world::Country {
            indicators: crate::world::CountryIndicators {
                treasury: Money::spec_from((ctry.indicators.treasury@ + fee) as i64),
                ..ctry.indicators
            },
            ..ctry
        };
        let ft = |x: crate::world::Country| x.indicators.treasury@ as int;
        lemma_total_update(w.countries, cc, nc, ft);
        assert(w2.cohorts == c1.insert(next, mig));
        assert(w2.countries == w.countries.insert(cc, nc));
        assert forall|k: u32| #[trigger] w2.cohorts.contains_key(k) implies k < n2 by {
            if k != next {
                assert(c1.contains_key(k));
            }
        }
    }
}

/// The turns of the regions `ks[0..k]` keep people, debt, and wealth plus treasury.
proof fn lemma_migrate_conserves(w: WorldView, ks: Seq<u32>, k: int, next: u32, date: SimDate)
    requires
        0 <= k <= ks.len(),
        migration_ready(w, next),
        next + ks.len() <= u32::MAX,
        migrate_upto(w, ks, k, next, date) is Ok,
    ensures
        ({
            let (w2, n2, _) = migrate_upto(w, ks, k, next, date)->Ok_0;
            &&& migration_ready(w2, n2)
            &&& n2 <= next + k
            &&& total_people(w2) == total_people(w)
            &&& total_debt(w2) == total_debt(w)
            &&& total_wealth(w2) + total_treasury(w2) == total_wealth(w) + total_treasury(w)
        }),
    decreases k,
{
    if k > 0 {
        lemma_migrate_prefix_ok(w, ks, k - 1, k, next, date);
        lemma_migrate_conserves(w, ks, k - 1, next, date);
        let (w1, n1, _) = migrate_upto(w, ks, k - 1, next, date)->Ok_0;
        lemma_step_conserves(w1, ks[k - 1], n1, date);
    }
}

/// A year's internal migration creates and destroys no people and no debt, and moves
/// money only between households and treasuries: the people and the debt of all
/// cohorts, and their wealth plus all treasuries, are what they were (while fresh
/// cohort ids remain for every region).
pub proof fn lemma_migration_conserves(w: WorldView, date: SimDate)
    requires
        is_key_order(w.cohorts, key_order(w.cohorts)),
        is_key_order(w.countries, key_order(w.countries)),
        first_free_cohort_id(w) + key_order(w.regions).len() <= u32::MAX,
        annual_migration(w, date) is Ok,
    ensures
        ({
            let (w2, _) = annual_migration(w, date)->Ok_0;
            &&& total_people(w2) == total_people(w)
            &&& total_debt(w2) == total_debt(w)
            &&& total_wealth(w2) + total_treasury(w2) == total_wealth(w) + total_treasury(w)
        }),
{
    let ks = key_order(w.regions);
    let first = first_free_cohort_id(w);
    if ks.len() > 0 {
        let cs = key_order(w.cohorts);
        assert forall|k: u32| #[trigger] w.cohorts.contains_key(k) implies k < first by {
            assert(cs.to_set().contains(k));
            let j = choose|j: int| 0 <= j < cs.len() && cs[j] == k;
            if j < cs.len() - 1 {
                assert(cs[j] < cs[cs.len() - 1]);
            }
        }
        lemma_migrate_conserves(w, ks, ks.len() as int, first, date);
    }
}

/// Whether every region's population is exactly the people of its cohorts.
pub open spec fn population_accounted(w: WorldView) -> bool {
    forall|k: u32| #[trigger] w.regions.contains_key(k) ==> w.regions[k].population@ == crate::cohort::cohort_population(w, k)
}

/// The people of region `r` as a sum over cohorts.
pub(crate) proof fn lemma_people_in_is_sum(cohorts: Map<u32, HouseholdCohort>, ks: Seq<u32>, r: u32)
    ensures
        crate::cohort::people_in(cohorts, ks, r) == key_sum(
            cohorts,
            ks,
            |c: HouseholdCohort| if c.region@ == r { c.people@ as int } else { 0int },
        ),
    decreases ks.len(),
{
    if ks.len() > 0 {
        lemma_people_in_is_sum(cohorts, ks.drop_last(), r);
    }
}

/// One region's turn keeps every region's population equal to its cohorts' people.
proof fn lemma_step_accounts(w: WorldView, source: u32, next: u32, date: SimDate)
    requires
        migration_ready(w, next),
        population_accounted(w),
        next < u32::MAX,
        migration_step(w, source, next, date) is Ok,
    ensures
        population_accounted(migration_step(w, source, next, date)->Ok_0.0),
{
    let (w2, n2, row) = migration_step(w, source, next, date)->Ok_0;
    if row is Some {
        let opp = best_opportunity(w, source)->Ok_0->Some_0;
        let cid = mobile_cohort(w, source)->Some_0;
        let ks = key_order(w.cohorts);
        lemma_mobile_is_cohort(w, source, ks, ks.len() as int);
        let rs = key_order(w.regions);
        lemma_best_is_opportunity(w, source, rs, rs.len() as int);
        let c = w.cohorts[cid];
        let p = c.people@ as int;
        let h = c.households as int;
        let m = household_size(c);
        assert(1 <= (p + h - 1) / h <= p) by (nonlinear_arith)
            requires
                p > 1,
                h > 1,
        ;
        let fee = opp.relocation_fee@ as int;
        let rem = remaining_cohort(c);
        let mig = migrant_cohort(c, next, opp.destination, fee);
        let c1 = w.cohorts.insert(cid, rem);
        assert forall|k: u32| #[trigger] c1.contains_key(k) implies k < next by {
            if k != cid {
                assert(w.cohorts.contains_key(k));
            }
        }
        let dest = opp.destination@;
        assert(w2.cohorts == c1.insert(next, mig));
        assert forall|k: u32| #[trigger] w2.regions.contains_key(k) implies w2.regions[k].population@
            == crate::cohort::cohort_population(w2, k) by {
            let f = |x: HouseholdCohort| if x.region@ == k { x.people@ as int } else { 0int };
            lemma_people_in_is_sum(w.cohorts, key_order(w.cohorts), k);
            lemma_people_in_is_sum(w2.cohorts, key_order(w2.cohorts), k);
            lemma_total_update(w.cohorts, cid, rem, f);
            lemma_total_push(c1, next, mig, f);
            assert(w.regions.contains_key(k));
        }
    }
}

/// The turns of the regions `ks[0..k]` keep the population accounts.
proof fn lemma_migrate_accounts(w: WorldView, ks: Seq<u32>, k: int, next: u32, date: SimDate)
    requires
        0 <= k <= ks.len(),
        migration_ready(w, next),
        population_accounted(w),
        next + ks.len() <= u32::MAX,
        migrate_upto(w, ks, k, next, date) is Ok,
    ensures
        population_accounted(migrate_upto(w, ks, k, next, date)->Ok_0.0),
    decreases k,
{
    if k > 0 {
        lemma_migrate_prefix_ok(w, ks, k - 1, k, next, date);
        lemma_migrate_accounts(w, ks, k - 1, next, date);
        lemma_migrate_conserves(w, ks, k - 1, next, date);
        let (w1, n1, _) = migrate_upto(w, ks, k - 1, next, date)->Ok_0;
        lemma_step_accounts(w1, ks[k - 1], n1, date);
    }
}

/// Migration moves people without losing count of them: where every region's
/// population was exactly the people of its cohorts, it still is afterwards (while fresh
/// cohort ids remain for every region).
pub proof fn lemma_migration_keeps_population_accounts(w: WorldView, date: SimDate)
    requires
        is_key_order(w.cohorts, key_order(w.cohorts)),
        is_key_order(w.countries, key_order(w.countries)),
        first_free_cohort_id(w) + key_order(w.regions).len() <= u32::MAX,
        population_accounted(w),
        annual_migration(w, date) is Ok,
    ensures
        population_accounted(annual_migration(w, date)->Ok_0.0),
{
    let ks = key_order(w.regions);
    let first = first_free_cohort_id(w);
    if ks.len() > 0 {
        let cs = key_order(w.cohorts);
        assert forall|k: u32| #[trigger] w.cohorts.contains_key(k) implies k < first by {
            assert(cs.to_set().contains(k));
            let j = choose|j: int| 0 <= j < cs.len() && cs[j] == k;
            if j < cs.len() - 1 {
                assert(cs[j] < cs[cs.len() - 1]);
            }
        }
        lemma_migrate_accounts(w, ks, ks.len() as int, first, date);
    }
}

impl World {
    /// Records a region's housing market; rejects an unknown region and then changes nothing.
    pub fn set_regional_housing_market(&mut self, region: RegionId, market: RegionalHousingMarket) -> (r: Result<
        (),
        WorldError,
    >)
        ensures
            !old(self)@.regions.contains_key(region@) ==> r == Err::<(), WorldError>(
                WorldError::UnknownRegion(region),
            ) && final(self)@ == old(self)@,
            old(self)@.regions.contains_key(region@) ==> r is Ok && final(self)@ == (WorldView {
                regional_housing: old(self)@.regional_housing.insert(region@, market),
                ..old(self)@
            }),
    {
        if !self.regions.contains_key(&region.get()) {
            return Err(WorldError::UnknownRegion(region));
        }
        self.regional_housing.insert(region.get(), market);
        Ok(())
    }

    /// The recorded housing markets by region.
    pub fn regional_housing(&self) -> (r: &BTreeMap<u32, RegionalHousingMarket>)
        ensures
            r@ == self@.regional_housing,
    {
        &self.regional_housing
    }
}

impl World {
    /// Whether one region's turn of the migration would fail (see `migration_step`).
    fn migration_step_fails(&self, source: u32, next: u32, date: SimDate) -> (r: bool)
        ensures
            r == migration_step(self@, source, next, date) is Err,
    {
        let opp = match self.best_opportunity_of(source) {
            Ok(Some(o)) => o,
            Ok(None) => {
                return false;
            },
            Err(()) => {
                return true;
            },
        };
        let cid = match self.mobile_cohort_of(source) {
            Some(c) => c,
            None => {
                return false;
            },
        };
        let ghost w = self@;
        proof {
            let rs = key_order(w.regions);
            lemma_best_is_opportunity(w, source, rs, rs.len() as int);
        }
        let c = *self.cohorts.get(&cid).unwrap();
        let people: u64 = c.people.people();
        let m: u64 = ((people as u128 + c.households as u128 - 1) / c.households as u128) as u64;
        proof {
            let p = people as int;
            let h = c.households as int;
            assert(1 <= (p + h - 1) / h <= p) by (nonlinear_arith)
                requires
                    p > 1,
                    h > 1,
            ;
            assert(m as int == household_size(c));
        }
        let per_person: i64 = share_of(c.annual_income.minor_units(), m, people);
        let raw: i128 = per_person as i128 / 12;
        let share: i64 = if raw < 1 {
            1
        } else if raw > i64::MAX as i128 {
            i64::MAX
        } else {
            raw as i64
        };
        let fee: i64 = opp.relocation_fee.minor_units();
        let required: i128 = share as i128 + fee as i128;
        if required > i64::MAX as i128 {
            return true;
        }
        if (c.liquid_wealth.minor_units() as i128) < required {
            return false;
        }
        let dest: u32 = opp.destination.get();
        let from = self.regions.get(&source).unwrap();
        let to = self.regions.get(&dest).unwrap();
        if from.population.people() < m || to.population.people() as u128 + m as u128 > u64::MAX as u128 {
            return true;
        }
        match self.countries.get(&to.country.get()) {
            None => true,
            Some(country) => country.indicators.treasury.minor_units() as i128 + fee as i128 > i64::MAX as i128,
        }
    }
}

/// The source regions `ks[0..k]` take their turns in order until one would fail: the
/// world, next id and moves after the turns made, and whether a turn failed (it and the
/// turns after it make no change).
pub open spec fn migrate_until(w: WorldView, ks: Seq<u32>, k: int, next: u32, date: SimDate) -> (
    WorldView,
    u32,
    Seq<HouseholdMigration>,
    bool,
)
    decreases k,
{
    if k <= 0 {
        (w, next, seq![], false)
    } else {
        let (w1, n1, rows, failed) = migrate_until(w, ks, k - 1, next, date);
        if failed {
            (w1, n1, rows, true)
        } else {
            match migration_step(w1, ks[k - 1], n1, date) {
                Err(_) => (w1, n1, rows, true),
                Ok((w2, n2, row)) => (
                    w2,
                    n2,
                    match row {
                        Some(r) => rows.push(r),
                        None => rows,
                    },
                    false,
                ),
            }
        }
    }
}

/// Where the turns all complete, running until a failure runs them all.
proof fn lemma_until_matches(w: WorldView, ks: Seq<u32>, k: int, next: u32, date: SimDate)
    requires
        0 <= k,
    ensures
        migrate_upto(w, ks, k, next, date) matches Ok((w2, n2, rows)) ==> migrate_until(w, ks, k, next, date)
            == (w2, n2, rows, false),
        migrate_upto(w, ks, k, next, date) is Err ==> migrate_until(w, ks, k, next, date).3,
    decreases k,
{
    if k > 0 {
        lemma_until_matches(w, ks, k - 1, next, date);
    }
}

impl World {
    /// Runs a year's internal migration like `execute_annual_internal_migration`, but
    /// checks each region's turn first: at the first turn that would overflow a count or an
    /// account, or leave a region with fewer people than moved away, it stops with an
    /// error; that turn and the later ones make no change, the earlier ones stay made.
    pub fn try_execute_annual_internal_migration(&mut self, date: SimDate) -> (r: Result<
        Vec<HouseholdMigration>,
        WorldError,
    >)
        ensures
            ({
                let ks = key_order(old(self)@.regions);
                let (w2, _, rows, failed) = migrate_until(
                    old(self)@,
                    ks,
                    ks.len() as int,
                    first_free_cohort_id(old(self)@),
                    date,
                );
                &&& final(self)@ == w2
                &&& failed ==> r == Err::<Vec<HouseholdMigration>, WorldError>(
                    WorldError::ArithmeticOverflow("household migration"),
                )
                &&& !failed ==> (r matches Ok(v) && v@ == rows)
                &&& annual_migration(old(self)@, date) is Ok <==> !failed
                &&& (annual_migration(old(self)@, date) matches Ok((w3, rows3)) ==> w3 == w2 && rows3 == rows)
            }),
    {
        let ghost w0 = self@;
        let cohort_ids = keys_in_order(&self.cohorts);
        let mut next: u32 = if cohort_ids.len() == 0 {
            1
        } else {
            let last = cohort_ids[cohort_ids.len() - 1];
            if last < u32::MAX {
                last + 1
            } else {
                last
            }
        };
        let ks = keys_in_order(&self.regions);
        proof {
            assert(next == first_free_cohort_id(w0));
            lemma_until_matches(w0, ks@, ks@.len() as int, next, date);
        }
        let mut rows: Vec<HouseholdMigration> = Vec::new();
        let mut i: usize = 0;
        while i < ks.len()
            invariant
                ks@ == key_order(w0.regions),
                i <= ks.len(),
                w0 == old(self)@,
                migrate_until(w0, ks@, i as int, first_free_cohort_id(w0), date) == (self@, next, rows@, false),
            decreases ks.len() - i,
        {
            if self.migration_step_fails(ks[i], next, date) {
                proof {
                    assert(migrate_until(w0, ks@, i + 1, first_free_cohort_id(w0), date).3);
                    lemma_until_failed_sticks(w0, ks@, i + 1, ks@.len() as int, first_free_cohort_id(w0), date);
                    lemma_until_matches(w0, ks@, ks@.len() as int, first_free_cohort_id(w0), date);
                }
                return Err(WorldError::ArithmeticOverflow("household migration"));
            }
            let (following, row) = self.migrate_from_region(ks[i], next, date);
            next = following;
            match row {
                Some(m) => {
                    rows.push(m);
                },
                None => {},
            }
            i = i + 1;
        }
        proof {
            lemma_until_matches(w0, ks@, ks@.len() as int, first_free_cohort_id(w0), date);
        }
        Ok(rows)
    }
}

/// Once a turn fails, later prefixes give the same outcome.
proof fn lemma_until_failed_sticks(w: WorldView, ks: Seq<u32>, k: int, n: int, next: u32, date: SimDate)
    requires
        0 <= k <= n,
        migrate_until(w, ks, k, next, date).3,
    ensures
        migrate_until(w, ks, n, next, date) == migrate_until(w, ks, k, next, date),
    decreases n - k,
{
    if k < n {
        lemma_until_failed_sticks(w, ks, k, n - 1, next, date);
    }
}

} // verus!
