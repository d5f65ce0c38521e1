use vstd::prelude::*;
use std::collections::BTreeMap;

use crate::apportion::seq_sum;
use crate::event::{DomainEvent, EventEnvelope};
use crate::ids::{CountryId, RegionId};
use crate::pricing::{clamp, tdiv, trunc_div};
use crate::public_services::{moved_toward, RegionalPublicServices};
use crate::service_allocation::{
    budget_amounts, budget_floors, is_budget_split, is_normalization, normalized_shares,
    prudent_weights, scaled_budget, service_influence_evidence, share_seq, weight_seq,
    ServiceAllocationInfluence, ServiceAllocationSource,
};
use crate::simulation::{
    countries_keyed_by_id, countries_year_error, fits_i64, lemma_country_year_is_planned,
    lemma_region_year_is_planned, planned_countries, planned_regions, pressure_plan,
    regions_have_countries, regions_year_error, services_or_default, CountryUpdate,
};
use crate::time::TimeError;
use crate::ordered::lemma_key_order_same_dom;
use crate::value::{BasisPoints, Money};
use crate::ordered::{is_key_order, key_order, keys_in_order};
use crate::political_economy::RegionalSocialPressure;
use crate::simulation::RegionUpdate;
use crate::time::SimDate;
use crate::migration::annual_migration;
use crate::world::{Country, CountryIndicators, Region, World, WorldError, WorldView};
use crate::regional_interests::{
    update_interest, updated_interest, RegionalFiscalPosition, RegionalInterest, RegionalPolicyOutcome,
};

verus! {

broadcast use {
    vstd::std_specs::btree::group_btree_axioms,
    BasisPoints::lemma_spec_from_view,
    BasisPoints::lemma_from_own_view,
    Money::lemma_spec_from_view,
    Money::lemma_from_own_view,
};

/// An event recorded on `date`.
pub open spec fn on(date: SimDate, event: DomainEvent) -> EventEnvelope {
    EventEnvelope { date, event }
}

/// What applying a region's year records: its new population and its new output.
pub open spec fn region_year_events(close: SimDate, u: RegionUpdate) -> Seq<EventEnvelope> {
    seq![
        on(
            close,
            DomainEvent::RegionPopulationChanged {
                region: u.id,
                population: u.population,
                rate: u.population_rate,
            },
        ),
        on(
            close,
            DomainEvent::RegionOutputChanged {
                region: u.id,
                annual_output: u.annual_output,
                rate: u.output_rate,
            },
        ),
    ]
}

/// The world after applying the planned region years `us` in order.
pub open spec fn apply_region_years(w: WorldView, close: SimDate, us: Seq<RegionUpdate>) -> WorldView
    decreases us.len(),
{
    if us.len() == 0 {
        w
    } else {
        let before = apply_region_years(w, close, us.drop_last());
        let u = us.last();
        WorldView {
            regions: before.regions.insert(
                u.id@,
                Region {
                    population: u.population,
                    annual_output: u.annual_output,
                    ..before.regions[u.id@]
                },
            ),
            events: before.events + region_year_events(close, u),
            ..before
        }
    }
}

/// Applying region years touches only regions and the event log.
pub proof fn lemma_region_years_keep_countries(w: WorldView, close: SimDate, us: Seq<RegionUpdate>)
    ensures
        apply_region_years(w, close, us).countries == w.countries,
    decreases us.len(),
{
    if us.len() > 0 {
        lemma_region_years_keep_countries(w, close, us.drop_last());
    }
}

/// The record of one region's social pressure.
pub open spec fn pressure_event(close: SimDate, id: u32, p: RegionalSocialPressure) -> EventEnvelope {
    on(
        close,
        DomainEvent::RegionalSocialPressureUpdated {
            region: RegionId(id),
            chronic_unemployment: p.chronic_unemployment,
            livelihood_stress: p.livelihood_stress,
            public_service_shortfall: p.public_service_shortfall,
            combined: p.combined,
        },
    )
}

/// The records of the social pressure of the regions `ids`, in order.
pub open spec fn pressure_events(
    close: SimDate,
    m: Map<u32, RegionalSocialPressure>,
    ids: Seq<u32>,
) -> Seq<EventEnvelope>
    decreases ids.len(),
{
    if ids.len() == 0 {
        Seq::empty()
    } else {
        pressure_events(close, m, ids.drop_last()).push(pressure_event(close, ids.last(), m[ids.last()]))
    }
}

/// The world after adopting the year's regional social pressure.
pub open spec fn apply_pressure(w: WorldView, close: SimDate, m: Map<u32, RegionalSocialPressure>) -> WorldView {
    WorldView {
        regional_social_pressure: m,
        events: w.events + pressure_events(close, m, key_order(m)),
        ..w
    }
}

/// The map that gives key `keys[i]` the value `f(i)`.
pub open spec fn indexed_map<V>(keys: Seq<u32>, f: spec_fn(int) -> V) -> Map<u32, V> {
    Map::new(|k: u32| keys.contains(k), |k: u32| f(keys.index_of(k)))
}

/// A map given value by value in the key order of its domain is that indexed map.
pub proof fn lemma_indexed_map<X, V>(d: Map<u32, X>, keys: Seq<u32>, r: Map<u32, V>, f: spec_fn(int) -> V)
    requires
        is_key_order(d, keys),
        r.dom() == d.dom(),
        forall|i: int| 0 <= i < keys.len() ==> r[#[trigger] keys[i]] == f(i),
    ensures
        r == indexed_map(keys, f),
{
    assert forall|k: u32| r.contains_key(k) <==> keys.contains(k) by {
        assert(keys.to_set().contains(k) <==> keys.contains(k));
    }
    assert forall|k: u32| r.contains_key(k) implies r[k] == f(keys.index_of(k)) by {
        assert(keys.contains(k));
        let i = keys.index_of(k);
        assert(keys[i] == k);
    }
    assert(r =~= indexed_map(keys, f));
}

/// The normalised share of the `i`-th weight in key order.
pub open spec fn normalized_entries(weights: Map<u32, u128>) -> spec_fn(int) -> BasisPoints {
    |i: int| BasisPoints::spec_from(normalized_shares(weight_seq(weights))[i] as u16)
}

/// The normalised basis-point shares of weights, as a map.
pub open spec fn normalized_map(weights: Map<u32, u128>) -> Map<u32, BasisPoints> {
    indexed_map(key_order(weights), normalized_entries(weights))
}

/// The amount of the `i`-th share in key order.
pub open spec fn split_entries(budget: int, shares: Map<u32, BasisPoints>) -> spec_fn(int) -> i128 {
    |i: int| budget_amounts(budget, share_seq(shares))[i] as i128
}

/// The largest-remainder split of a budget by shares, as a map.
pub open spec fn split_map(budget: int, shares: Map<u32, BasisPoints>) -> Map<u32, i128> {
    indexed_map(key_order(shares), split_entries(budget, shares))
}

/// The public-service budget of a country's year: 30% of its positive spending.
pub open spec fn service_budget_of(u: CountryUpdate) -> int {
    (if u.spending@ > 0 {
        u.spending@ as int
    } else {
        0
    }) * 3_000 / 10_000
}

/// The regional shares of a country's service budget: its explicit political allocation,
/// or the normalised prudence weights.
pub open spec fn planned_shares(w: WorldView, c: CountryId) -> Map<u32, BasisPoints> {
    if w.country_service_allocations.contains_key(c@) {
        w.country_service_allocations[c@]
    } else {
        normalized_map(prudent_weights(w, c))
    }
}

pub open spec fn planned_source(w: WorldView, c: CountryId) -> ServiceAllocationSource {
    if w.country_service_allocations.contains_key(c@) {
        ServiceAllocationSource::ExplicitPoliticalDecision
    } else {
        ServiceAllocationSource::AutonomousPrudent
    }
}

pub open spec fn planned_influences(w: WorldView, c: CountryId) -> Seq<ServiceAllocationInfluence> {
    if w.country_service_allocations.contains_key(c@) {
        Seq::empty()
    } else {
        service_influence_evidence(w, c)
    }
}

/// The prudence weights of a country that allocates autonomously fit in `u128`.
pub open spec fn prudence_fits(w: WorldView, c: CountryId) -> bool {
    !w.country_service_allocations.contains_key(c@) ==> seq_sum(weight_seq(prudent_weights(w, c)))
        <= u128::MAX
}

/// Every amount of a budget split by shares of at most 65,535 basis points lies within
/// zero and eight times the budget, plus one.
pub proof fn lemma_split_amount_bounds(budget: int, shares: Seq<int>, i: int)
    requires
        0 <= budget,
        0 <= i < shares.len(),
        forall|j: int| 0 <= j < shares.len() ==> 0 <= #[trigger] shares[j] <= 65_535,
    ensures
        0 <= budget_amounts(budget, shares)[i] <= 8 * budget + 1,
{
    let s = shares[i];
    let sc = scaled_budget(budget, s);
    assert(0 <= budget * s <= budget * 65_535) by (nonlinear_arith)
        requires
            0 <= budget,
            0 <= s <= 65_535,
    ;
    assert(0 <= sc / 10_000 <= 8 * budget) by (nonlinear_arith)
        requires
            0 <= sc <= budget * 65_535,
    ;
    assert(budget_floors(budget, shares)[i] == sc / 10_000);
}

/// The target a region's services are funded toward: its budget as a share of its
/// output, in basis points of a tenth, between 0 and 100%.
pub open spec fn funding_target_of(budget: int, output: int) -> int {
    if output <= 0 {
        0
    } else {
        clamp(tdiv(budget * 100_000, output), 0, 10_000)
    }
}

/// The planned output of region `k`: that of the first planned year for it.
pub open spec fn find_output(us: Seq<RegionUpdate>, k: u32) -> Option<int>
    decreases us.len(),
{
    if us.len() == 0 {
        None
    } else {
        match find_output(us.drop_last(), k) {
            Some(o) => Some(o),
            None => if us.last().id@ == k {
                Some(us.last().annual_output@ as int)
            } else {
                None
            },
        }
    }
}

/// Services after one year of adjustment toward `target` (see
/// `RegionalPublicServices::adjusted_toward_funding`).
pub open spec fn adjusted_services(s: RegionalPublicServices, target: int) -> RegionalPublicServices {
    let administration = moved_toward(s.administration@ as int, target, 250);
    let ceiling = if administration + 1_000 < 10_000 {
        administration + 1_000
    } else {
        10_000
    };
    let delivered = if target < ceiling {
        target
    } else {
        ceiling
    };
    RegionalPublicServices {
        healthcare: BasisPoints::spec_from(moved_toward(s.healthcare@ as int, delivered, 500) as u16),
        infrastructure: BasisPoints::spec_from(
            moved_toward(s.infrastructure@ as int, delivered, 500) as u16,
        ),
        administration: BasisPoints::spec_from(administration as u16),
    }
}

/// One region's share of its country's service budget: recorded, and its services
/// moved toward what the budget funds.
pub open spec fn service_step(
    w: WorldView,
    close: SimDate,
    c: CountryId,
    source: ServiceAllocationSource,
    shares: Map<u32, BasisPoints>,
    budgets: Map<u32, i128>,
    us: Seq<RegionUpdate>,
    k: u32,
) -> WorldView {
    let b = if budgets.contains_key(k) {
        budgets[k] as int
    } else {
        0
    };
    let output = match find_output(us, k) {
        Some(o) => o,
        None => 0,
    };
    let target = funding_target_of(b, output);
    let share = if shares.contains_key(k) {
        shares[k]
    } else {
        BasisPoints::spec_from(0)
    };
    let money = Money::spec_from(
        if fits_i64(b) {
            b as i64
        } else {
            i64::MAX
        },
    );
    let services = adjusted_services(services_or_default(w, k), target);
    WorldView {
        regional_public_services: w.regional_public_services.insert(k, services),
        events: w.events.push(
            on(
                close,
                DomainEvent::RegionalServiceBudgetAllocated {
                    country: c,
                    region: RegionId(k),
                    source,
                    share,
                    service_budget: money,
                },
            ),
        ).push(
            on(
                close,
                DomainEvent::RegionalPublicServicesUpdated {
                    region: RegionId(k),
                    service_budget: money,
                    funding_target: BasisPoints::spec_from(target as u16),
                    healthcare: services.healthcare,
                    infrastructure: services.infrastructure,
                    administration: services.administration,
                },
            ),
        ),
        ..w
    }
}

/// The service steps of the regions among `ids` that belong to `c`, in order.
pub open spec fn service_steps(
    w: WorldView,
    regions: Map<u32, Region>,
    close: SimDate,
    c: CountryId,
    source: ServiceAllocationSource,
    shares: Map<u32, BasisPoints>,
    budgets: Map<u32, i128>,
    us: Seq<RegionUpdate>,
    ids: Seq<u32>,
) -> WorldView
    decreases ids.len(),
{
    if ids.len() == 0 {
        w
    } else {
        let before = service_steps(w, regions, close, c, source, shares, budgets, us, ids.drop_last());
        if regions[ids.last()].country == c {
            service_step(before, close, c, source, shares, budgets, us, ids.last())
        } else {
            before
        }
    }
}

/// The records of the political evidence behind a country's service allocation.
pub open spec fn influence_events(
    close: SimDate,
    c: CountryId,
    ev: Seq<ServiceAllocationInfluence>,
) -> Seq<EventEnvelope> {
    Seq::new(
        ev.len(),
        |i: int|
            on(
                close,
                DomainEvent::RegionalServiceAllocationInfluenceApplied {
                    country: c,
                    actor: ev[i].actor,
                    office: ev[i].office,
                    region: ev[i].region,
                    kind: ev[i].kind,
                    weight: ev[i].weight,
                    score_bonus: ev[i].score_bonus,
                },
            ),
    )
}

/// A country's service year: its allocation evidence recorded, then each of its regions'
/// service steps in region-id order.
pub open spec fn country_services(
    w: WorldView,
    close: SimDate,
    c: CountryId,
    source: ServiceAllocationSource,
    shares: Map<u32, BasisPoints>,
    budgets: Map<u32, i128>,
    influences: Seq<ServiceAllocationInfluence>,
    us: Seq<RegionUpdate>,
) -> WorldView {
    service_steps(
        WorldView { events: w.events + influence_events(close, c, influences), ..w },
        w.regions,
        close,
        c,
        source,
        shares,
        budgets,
        us,
        key_order(w.regions),
    )
}

/// Every country's service year in order, each planned at `plan` (the state before any
/// of them).
pub open spec fn all_country_services(
    w: WorldView,
    plan: WorldView,
    close: SimDate,
    cs: Seq<CountryUpdate>,
    us: Seq<RegionUpdate>,
) -> WorldView
    decreases cs.len(),
{
    if cs.len() == 0 {
        w
    } else {
        let before = all_country_services(w, plan, close, cs.drop_last(), us);
        let u = cs.last();
        country_services(
            before,
            close,
            u.id,
            planned_source(plan, u.id),
            planned_shares(plan, u.id),
            split_map(service_budget_of(u), planned_shares(plan, u.id)),
            planned_influences(plan, u.id),
            us,
        )
    }
}

/// What closing a country's year records: interest charged on its debt, a
/// restructuring, the fiscal closure and the political changes.
pub open spec fn country_year_events(close: SimDate, u: CountryUpdate) -> Seq<EventEnvelope> {
    let charged = if u.interest@ > 0 {
        seq![
            on(
                close,
                DomainEvent::PublicDebtInterestCharged {
                    country: u.id,
                    opening_debt: u.opening_debt,
                    interest: u.interest,
                },
            ),
        ]
    } else {
        Seq::empty()
    };
    let restructured = if u.principal_written_off@ > 0 {
        seq![
            on(
                close,
                DomainEvent::PublicDebtRestructured {
                    country: u.id,
                    debt_before: u.debt_before_restructuring,
                    debt_after: u.debt,
                    principal_written_off: u.principal_written_off,
                },
            ),
        ]
    } else {
        Seq::empty()
    };
    charged + restructured + seq![
        on(
            close,
            DomainEvent::CountryFiscalYearClosed {
                country: u.id,
                revenue: u.revenue,
                spending: u.spending,
                treasury: u.treasury,
                debt: u.debt,
            },
        ),
        on(
            close,
            DomainEvent::CountryLegitimacyPressureApplied {
                country: u.id,
                population_weighted_pressure: u.social_pressure,
                legitimacy_effect: u.legitimacy_effect,
            },
        ),
        on(
            close,
            DomainEvent::CountryRegionalConfidenceApplied {
                country: u.id,
                population_weighted_confidence: u.regional_confidence,
                legitimacy_effect: u.regional_confidence_effect,
            },
        ),
        on(
            close,
            DomainEvent::CountryPoliticsChanged {
                country: u.id,
                legitimacy: u.legitimacy,
                elite_cohesion: u.cohesion,
            },
        ),
    ]
}

/// The world after closing the planned country years in order.
pub open spec fn apply_country_years(w: WorldView, close: SimDate, cs: Seq<CountryUpdate>) -> WorldView
    decreases cs.len(),
{
    if cs.len() == 0 {
        w
    } else {
        let before = apply_country_years(w, close, cs.drop_last());
        let u = cs.last();
        WorldView {
            countries: before.countries.insert(
                u.id@,
                Country {
                    indicators: CountryIndicators {
                        treasury: u.treasury,
                        public_debt: u.debt,
                        legitimacy: u.legitimacy,
                        elite_cohesion: u.cohesion,
                    },
                    ..before.countries[u.id@]
                },
            ),
            events: before.events + country_year_events(close, u),
            ..before
        }
    }
}

/// The service budget recorded for region `k` by the events dated `close`.
pub open spec fn recorded_service_budget(events: Seq<EventEnvelope>, close: SimDate, k: u32) -> int
    decreases events.len(),
{
    if events.len() == 0 {
        0
    } else {
        recorded_service_budget(events.drop_last(), close, k) + match events.last().event {
            DomainEvent::RegionalPublicServicesUpdated { region, service_budget, .. } => if events.last().date
                == close && region@ == k {
                service_budget@ as int
            } else {
                0
            },
            _ => 0,
        }
    }
}

/// Some region's recorded service budget for `close` does not fit the currency.
pub open spec fn outcomes_overflow(w: WorldView, close: SimDate) -> bool {
    exists|k: u32| #[trigger]
        w.regions.contains_key(k) && !fits_i64(recorded_service_budget(w.events, close, k))
}

/// Region `k`'s fiscal incidence for the year closing on `close`: it paid no taxes
/// (this library collects none) and received its recorded service budget.
pub open spec fn policy_outcome(events: Seq<EventEnvelope>, close: SimDate, k: u32) -> RegionalPolicyOutcome {
    let allocated = recorded_service_budget(events, close, k);
    RegionalPolicyOutcome {
        taxes_paid: Money::spec_from(0),
        service_allocation: Money::spec_from(allocated as i64),
        net_transfer: Money::spec_from(allocated as i64),
        fiscal_position: if allocated < 0 {
            RegionalFiscalPosition::NetContributor
        } else if allocated == 0 {
            RegionalFiscalPosition::Balanced
        } else {
            RegionalFiscalPosition::NetBeneficiary
        },
    }
}

/// A region's interest after a year (see `updated_interest`).
pub open spec fn interest_after(
    previous: RegionalInterest,
    pressure: RegionalSocialPressure,
    position: RegionalFiscalPosition,
) -> RegionalInterest {
    let (priority, strength, satisfaction, years) = updated_interest(previous, pressure, position);
    RegionalInterest {
        priority,
        priority_pressure: BasisPoints::spec_from(strength),
        satisfaction: BasisPoints::spec_from(satisfaction as u16),
        years_persistent: years as u8,
        previous_priority_pressure: BasisPoints::spec_from(strength),
    }
}

/// A region's recorded social pressure, none when absent.
pub open spec fn pressure_or_default(w: WorldView, k: u32) -> RegionalSocialPressure {
    if w.regional_social_pressure.contains_key(k) {
        w.regional_social_pressure[k]
    } else {
        RegionalSocialPressure {
            chronic_unemployment: BasisPoints::spec_from(0),
            livelihood_stress: BasisPoints::spec_from(0),
            public_service_shortfall: BasisPoints::spec_from(0),
            combined: BasisPoints::spec_from(0),
        }
    }
}

/// A region's recorded interest, the default stable one when absent.
pub open spec fn interest_or_default(w: WorldView, k: u32) -> RegionalInterest {
    if w.regional_interests.contains_key(k) {
        w.regional_interests[k]
    } else {
        RegionalInterest {
            priority: crate::regional_interests::RegionalPolicyPriority::Stability,
            priority_pressure: BasisPoints::spec_from(0),
            satisfaction: BasisPoints::spec_from(5_000),
            years_persistent: 0,
            previous_priority_pressure: BasisPoints::spec_from(0),
        }
    }
}

/// One region's annual interest update: its outcome and interest recorded.
pub open spec fn interest_step(w: WorldView, events: Seq<EventEnvelope>, close: SimDate, k: u32) -> WorldView {
    let outcome = policy_outcome(events, close, k);
    let previous = interest_or_default(w, k);
    let next = interest_after(previous, pressure_or_default(w, k), outcome.fiscal_position);
    WorldView {
        regional_interests: w.regional_interests.insert(k, next),
        regional_policy_outcomes: w.regional_policy_outcomes.insert(k, outcome),
        events: w.events.push(
            on(
                close,
                DomainEvent::RegionalPolicyOutcomeRecorded {
                    region: RegionId(k),
                    taxes_paid: outcome.taxes_paid,
                    service_allocation: outcome.service_allocation,
                    net_transfer: outcome.net_transfer,
                    fiscal_position: outcome.fiscal_position,
                },
            ),
        ).push(
            on(
                close,
                DomainEvent::RegionalInterestUpdated {
                    region: RegionId(k),
                    previous_priority: previous.priority,
                    priority: next.priority,
                    priority_pressure: next.priority_pressure,
                    satisfaction: next.satisfaction,
                    years_persistent: next.years_persistent,
                },
            ),
        ),
        ..w
    }
}

/// The interest updates of the regions `ids` in order, outcomes read from `events`.
pub open spec fn interest_steps(w: WorldView, events: Seq<EventEnvelope>, close: SimDate, ids: Seq<u32>) -> WorldView
    decreases ids.len(),
{
    if ids.len() == 0 {
        w
    } else {
        interest_step(interest_steps(w, events, close, ids.drop_last()), events, close, ids.last())
    }
}

/// The world after the annual update of every region's interest.
pub open spec fn interests_after(w: WorldView, close: SimDate) -> WorldView {
    interest_steps(w, w.events, close, key_order(w.regions))
}

/// Why the world cannot close its current year: it was already closed, the next year
/// cannot be represented, or a region's or country's year cannot be planned.
pub open spec fn year_error(w: WorldView) -> Option<WorldError> {
    let year = w.date.spec_year();
    if w.last_annual_closure_year == Some(year) {
        Some(WorldError::AnnualClosureAlreadyExecuted(year))
    } else if year + 1 > i32::MAX {
        Some(WorldError::Time(TimeError::YearOverflow))
    } else {
        match regions_year_error(w, year, key_order(w.regions)) {
            Some(e) => Some(e),
            None => countries_year_error(w, planned_regions(w, year), key_order(w.countries)),
        }
    }
}

/// The world after the planned regions' years and the year's social pressure.
pub open spec fn year_after_regions(w: WorldView) -> WorldView {
    let year = w.date.spec_year();
    let close = w.date.spec_years_later(1);
    apply_pressure(
        apply_region_years(w, close, planned_regions(w, year)),
        close,
        pressure_plan(w),
    )
}

/// The planned country years of the world's current year.
pub open spec fn year_countries(w: WorldView) -> Seq<CountryUpdate> {
    let year = w.date.spec_year();
    planned_countries(w, year, planned_regions(w, year), pressure_plan(w))
}

/// The world after the year's public services and fiscal closures, before interests.
pub open spec fn year_before_interests(w: WorldView) -> WorldView {
    let close = w.date.spec_years_later(1);
    let settled = year_after_regions(w);
    apply_country_years(
        all_country_services(settled, settled, close, year_countries(w), planned_regions(w, w.date.spec_year())),
        close,
        year_countries(w),
    )
}

/// The world after the year's regional interests, before households migrate.
pub open spec fn year_before_migration(w: WorldView) -> WorldView {
    interests_after(year_before_interests(w), w.date.spec_years_later(1))
}

/// The world after one annual closure: demography and output by region, social
/// pressure, public services, fiscal closure and politics by country, regional
/// interests, the year's internal migration of households (see `annual_migration`), and
/// the date one year later. The closure does not age cohorts, pay public outlays to them
/// or invest in housing.
pub open spec fn year_after(w: WorldView) -> WorldView {
    let year = w.date.spec_year();
    let close = w.date.spec_years_later(1);
    let settled = annual_migration(year_before_migration(w), close)->Ok_0.0;
    WorldView {
        date: close,
        last_annual_closure_year: Some(year),
        events: settled.events.push(on(close, DomainEvent::YearAdvanced { year: close.spec_year() })),
        ..settled
    }
}

/// What closing the current year needs beyond its own checks: every region and country
/// stored under its id with its country registered, prudence weights that fit `u128`
/// for every country that allocates autonomously, recorded service budgets that fit
/// the currency, and a migration whose moves fit every count and account.
pub open spec fn year_preconditions(w: WorldView) -> bool {
    &&& regions_have_countries(w)
    &&& countries_keyed_by_id(w)
    &&& year_error(w) is None ==> {
        &&& forall|id: u32| #[trigger]
            w.countries.contains_key(id) ==> prudence_fits(year_after_regions(w), w.countries[id].id)
        &&& !outcomes_overflow(year_before_interests(w), w.date.spec_years_later(1))
        &&& annual_migration(year_before_migration(w), w.date.spec_years_later(1)) is Ok
    }
}

/// The world and the first error after closing up to `n` years in turn from `w`: the
/// years before a failing one stay closed, and the failing year changes nothing.
pub open spec fn years_run(w: WorldView, n: nat) -> (WorldView, Option<WorldError>)
    decreases n,
{
    if n == 0 {
        (w, None)
    } else {
        let (v, e) = years_run(w, (n - 1) as nat);
        if e is Some {
            (v, e)
        } else if year_error(v) is Some {
            (v, year_error(v))
        } else {
            (year_after(v), None)
        }
    }
}

/// Every year that is reached while closing `n` years from `w` meets what closing it needs.
pub open spec fn years_preconditions(w: WorldView, n: nat) -> bool {
    forall|k: nat| #![trigger years_run(w, k)]
        k < n && years_run(w, k).1 is None ==> year_preconditions(years_run(w, k).0)
}

/// Once a year fails, later counts of years give the same outcome.
pub proof fn lemma_failed_year_sticks(w: WorldView, k: nat, n: nat)
    requires
        k <= n,
        years_run(w, k).1 is Some,
    ensures
        years_run(w, n) == years_run(w, k),
    decreases n - k,
{
    if k < n {
        lemma_failed_year_sticks(w, k, (n - 1) as nat);
    }
}

/// Two equal worlds close the same number of years into equal worlds with equal outcomes:
/// a history is a function of the world it starts from, its seed included.
pub proof fn lemma_twin_histories_agree(a: WorldView, b: WorldView, n: nat)
    requires
        a == b,
    ensures
        years_run(a, n) == years_run(b, n),
{
}

/// The service years change no country.
pub proof fn lemma_services_keep_countries(
    w: WorldView,
    plan: WorldView,
    close: SimDate,
    cs: Seq<CountryUpdate>,
    us: Seq<RegionUpdate>,
)
    ensures
        all_country_services(w, plan, close, cs, us).countries == w.countries,
    decreases cs.len(),
{
    if cs.len() > 0 {
        lemma_services_keep_countries(w, plan, close, cs.drop_last(), us);
        let before = all_country_services(w, plan, close, cs.drop_last(), us);
        let u = cs.last();
        lemma_service_steps_keep_countries(
            WorldView {
                events: before.events + influence_events(close, u.id, planned_influences(plan, u.id)),
                ..before
            },
            before.regions,
            close,
            u.id,
            planned_source(plan, u.id),
            planned_shares(plan, u.id),
            split_map(service_budget_of(u), planned_shares(plan, u.id)),
            us,
            key_order(before.regions),
        );
    }
}

pub proof fn lemma_service_steps_keep_countries(
    w: WorldView,
    regions: Map<u32, Region>,
    close: SimDate,
    c: CountryId,
    source: ServiceAllocationSource,
    shares: Map<u32, BasisPoints>,
    budgets: Map<u32, i128>,
    us: Seq<RegionUpdate>,
    ids: Seq<u32>,
)
    ensures
        service_steps(w, regions, close, c, source, shares, budgets, us, ids).countries == w.countries,
    decreases ids.len(),
{
    if ids.len() > 0 {
        lemma_service_steps_keep_countries(w, regions, close, c, source, shares, budgets, us, ids.drop_last());
    }
}

impl World {
    /// Applies the planned region years in order (see `apply_region_years`).
    pub fn apply_region_years(&mut self, close: SimDate, updates: &Vec<RegionUpdate>)
        requires
            forall|i: int| 0 <= i < updates@.len() ==> old(self)@.regions.contains_key(#[trigger] updates@[i].id@),
        ensures
            final(self)@ == apply_region_years(old(self)@, close, updates@),
    {
        let ghost start = self@;
        let mut i: usize = 0;
        while i < updates.len()
            invariant
                start == old(self)@,
                forall|j: int| 0 <= j < updates@.len() ==> start.regions.contains_key(#[trigger] updates@[j].id@),
                i <= updates.len(),
                self@ == apply_region_years(start, close, updates@.take(i as int)),
                self@.regions.dom() == start.regions.dom(),
            decreases updates.len() - i,
        {
            let u = updates[i];
            proof {
                assert(updates@.take(i + 1).drop_last() =~= updates@.take(i as int));
                assert(start.regions.contains_key(updates@[i as int].id@));
            }
            let mut region = self.regions.remove(&u.id.get()).unwrap();
            region.population = u.population;
            region.annual_output = u.annual_output;
            self.regions.insert(u.id.get(), region);
            self.events.append(
                close,
                DomainEvent::RegionPopulationChanged {
                    region: u.id,
                    population: u.population,
                    rate: u.population_rate,
                },
            );
            self.events.append(
                close,
                DomainEvent::RegionOutputChanged {
                    region: u.id,
                    annual_output: u.annual_output,
                    rate: u.output_rate,
                },
            );
            proof {
                assert(self@.regions.dom() =~= start.regions.dom());
                assert(self@ =~= apply_region_years(start, close, updates@.take(i + 1)));
            }
            i = i + 1;
        }
        proof {
            assert(updates@.take(updates@.len() as int) =~= updates@);
        }
    }

    /// Adopts the year's regional social pressure and records it region by region
    /// (see `apply_pressure`).
    pub fn apply_pressure(&mut self, close: SimDate, pressure: BTreeMap<u32, RegionalSocialPressure>)
        ensures
            final(self)@ == apply_pressure(old(self)@, close, pressure@),
    {
        let ids = keys_in_order(&pressure);
        let ghost start = self@.events;
        let mut i: usize = 0;
        while i < ids.len()
            invariant
                ids@ == key_order(pressure@),
                forall|j: int| 0 <= j < ids@.len() ==> pressure@.contains_key(#[trigger] ids@[j]),
                i <= ids.len(),
                self@ == (WorldView { events: start + pressure_events(close, pressure@, ids@.take(i as int)), ..old(self)@ }),
            decreases ids.len() - i,
        {
            let id = ids[i];
            let p = *pressure.get(&id).unwrap();
            proof {
                assert(ids@.take(i + 1).drop_last() =~= ids@.take(i as int));
            }
            self.events.append(
                close,
                DomainEvent::RegionalSocialPressureUpdated {
                    region: RegionId::new(id),
                    chronic_unemployment: p.chronic_unemployment,
                    livelihood_stress: p.livelihood_stress,
                    public_service_shortfall: p.public_service_shortfall,
                    combined: p.combined,
                },
            );
            proof {
                assert(self@.events =~= start + pressure_events(close, pressure@, ids@.take(i + 1)));
                assert(self@ =~= (WorldView { events: start + pressure_events(close, pressure@, ids@.take(i + 1)), ..old(self)@ }));
            }
            i = i + 1;
        }
        proof {
            assert(ids@.take(ids@.len() as int) =~= ids@);
        }
        self.regional_social_pressure = pressure;
        proof {
            assert(self@ =~= apply_pressure(old(self)@, close, pressure@));
        }
    }
}

/// The planned output of region `k` among the planned years (see `find_output`).
fn find_planned_output(updates: &Vec<RegionUpdate>, k: u32) -> (r: Option<i64>)
    ensures
        r matches Some(o) ==> find_output(updates@, k) == Some(o as int),
        r is None ==> find_output(updates@, k) is None,
{
    let mut found: Option<i64> = None;
    let mut i: usize = 0;
    while i < updates.len()
        invariant
            i <= updates@.len(),
            found matches Some(o) ==> find_output(updates@.take(i as int), k) == Some(o as int),
            found is None ==> find_output(updates@.take(i as int), k) is None,
        decreases updates.len() - i,
    {
        proof {
            assert(updates@.take(i + 1).drop_last() =~= updates@.take(i as int));
        }
        if found.is_none() && updates[i].id.get() == k {
            found = Some(updates[i].annual_output.minor_units());
        }
        i = i + 1;
    }
    proof {
        assert(updates@.take(updates@.len() as int) =~= updates@);
    }
    found
}

impl World {
    /// Plans a country's service year at the current state: the source, the regional
    /// shares and budgets of 30% of its positive spending, and the political evidence.
    pub fn plan_country_services(&self, u: &CountryUpdate) -> (r: (
        ServiceAllocationSource,
        BTreeMap<u32, BasisPoints>,
        BTreeMap<u32, i128>,
        Vec<ServiceAllocationInfluence>,
    ))
        requires
            prudence_fits(self@, u.id),
        ensures
            r.0 == planned_source(self@, u.id),
            r.1@ == planned_shares(self@, u.id),
            r.2@ == split_map(service_budget_of(*u), planned_shares(self@, u.id)),
            r.3@ == planned_influences(self@, u.id),
    {
        let spending = u.spending.minor_units();
        let positive: i128 = if spending > 0 {
            spending as i128
        } else {
            0
        };
        let budget: i128 = positive * 3_000 / 10_000;
        let planned = self.plan_regional_service_budgets(u.id, budget);
        let share_keys = keys_in_order(&planned.1);
        proof {
            let c = u.id;
            if !self@.country_service_allocations.contains_key(c@) {
                let ws = prudent_weights(self@, c);
                assert(planned.1@.dom() == ws.dom());
                lemma_key_order_same_dom(planned.1@, ws, share_keys@);
                assert(is_key_order(ws, share_keys@));
                assert forall|i: int| 0 <= i < share_keys@.len() implies planned.1@[#[trigger] share_keys@[i]]
                    == (normalized_entries(ws))(i) by {
                    let v = planned.1@[share_keys@[i]];
                    assert(v@ as int == normalized_shares(weight_seq(ws))[i]);
                }
                lemma_indexed_map(ws, share_keys@, planned.1@, normalized_entries(ws));
            }
            assert forall|i: int| 0 <= i < share_keys@.len() implies planned.2@[#[trigger] share_keys@[i]]
                == (split_entries(budget as int, planned.1@))(i) by {
            }
            lemma_indexed_map(planned.1@, share_keys@, planned.2@, split_entries(budget as int, planned.1@));
        }
        planned
    }
}

impl World {
    /// Applies a country's service year (see `country_services`).
    pub fn apply_country_services(
        &mut self,
        close: SimDate,
        c: CountryId,
        updates: &Vec<RegionUpdate>,
        source: ServiceAllocationSource,
        shares: &BTreeMap<u32, BasisPoints>,
        budgets: &BTreeMap<u32, i128>,
        influences: &Vec<ServiceAllocationInfluence>,
    )
        requires
            forall|k: u32| #[trigger]
                budgets@.contains_key(k) ==> 0 <= budgets@[k] <= 0x8_0000_0000_0000_0000,
        ensures
            final(self)@ == country_services(
                old(self)@,
                close,
                c,
                source,
                shares@,
                budgets@,
                influences@,
                updates@,
            ),
    {
        let ghost start = self@;
        let mut i: usize = 0;
        while i < influences.len()
            invariant
                i <= influences@.len(),
                self@ == (WorldView {
                    events: start.events + influence_events(close, c, influences@).take(i as int),
                    ..start
                }),
            decreases influences.len() - i,
        {
            let e = influences[i];
            self.events.append(
                close,
                DomainEvent::RegionalServiceAllocationInfluenceApplied {
                    country: c,
                    actor: e.actor,
                    office: e.office,
                    region: e.region,
                    kind: e.kind,
                    weight: e.weight,
                    score_bonus: e.score_bonus,
                },
            );
            proof {
                assert(self@.events =~= start.events + influence_events(close, c, influences@).take(
                    i + 1,
                ));
                assert(self@ =~= (WorldView {
                    events: start.events + influence_events(close, c, influences@).take(i + 1),
                    ..start
                }));
            }
            i = i + 1;
        }
        let ghost opened = WorldView {
            events: start.events + influence_events(close, c, influences@),
            ..start
        };
        proof {
            assert(influence_events(close, c, influences@).take(influences@.len() as int)
                =~= influence_events(close, c, influences@));
            assert(self@ =~= opened);
        }
        let ids = keys_in_order(&self.regions);
        let mut j: usize = 0;
        while j < ids.len()
            invariant
                ids@ == key_order(start.regions),
                forall|x: int| 0 <= x < ids@.len() ==> start.regions.contains_key(#[trigger] ids@[x]),
                self@.regions == start.regions,
                forall|k: u32| #[trigger]
                    budgets@.contains_key(k) ==> 0 <= budgets@[k] <= 0x8_0000_0000_0000_0000,
                j <= ids.len(),
                self@ == service_steps(
                    opened,
                    start.regions,
                    close,
                    c,
                    source,
                    shares@,
                    budgets@,
                    updates@,
                    ids@.take(j as int),
                ),
            decreases ids.len() - j,
        {
            let k = ids[j];
            proof {
                assert(ids@.take(j + 1).drop_last() =~= ids@.take(j as int));
            }
            let in_country = self.regions.get(&k).unwrap().country == c;
            if in_country {
                let b: i128 = match budgets.get(&k) {
                    Some(v) => *v,
                    None => 0,
                };
                let output: i128 = match find_planned_output(updates, k) {
                    Some(o) => o as i128,
                    None => 0,
                };
                let target: i128 = if output <= 0 {
                    0
                } else {
                    let raw = trunc_div(b * 100_000, output);
                    if raw < 0 {
                        0
                    } else if raw > 10_000 {
                        10_000
                    } else {
                        raw
                    }
                };
                let share = match shares.get(&k) {
                    Some(v) => *v,
                    None => BasisPoints::zero(),
                };
                let money = Money::from_minor_units(
                    if b >= i64::MIN as i128 && b <= i64::MAX as i128 {
                        b as i64
                    } else {
                        i64::MAX
                    },
                );
                let current = match self.regional_public_services.get(&k) {
                    Some(v) => *v,
                    None => RegionalPublicServices::default(),
                };
                let funding_target = BasisPoints::from_bounded(target as u16);
                let services = current.adjusted_toward_funding(funding_target);
                self.events.append(
                    close,
                    DomainEvent::RegionalServiceBudgetAllocated {
                        country: c,
                        region: RegionId::new(k),
                        source,
                        share,
                        service_budget: money,
                    },
                );
                self.regional_public_services.insert(k, services);
                self.events.append(
                    close,
                    DomainEvent::RegionalPublicServicesUpdated {
                        region: RegionId::new(k),
                        service_budget: money,
                        funding_target,
                        healthcare: services.healthcare,
                        infrastructure: services.infrastructure,
                        administration: services.administration,
                    },
                );
            }
            proof {
                let before = service_steps(
                    opened,
                    start.regions,
                    close,
                    c,
                    source,
                    shares@,
                    budgets@,
                    updates@,
                    ids@.take(j as int),
                );
                if in_country {
                    assert(self@ =~= service_step(before, close, c, source, shares@, budgets@, updates@, k));
                }
            }
            j = j + 1;
        }
        proof {
            assert(ids@.take(ids@.len() as int) =~= ids@);
        }
    }
}

impl World {
    /// Plans every country's service year at the current state, then applies them in
    /// order (see `all_country_services`).
    pub fn apply_all_country_services(
        &mut self,
        close: SimDate,
        cs: &Vec<CountryUpdate>,
        updates: &Vec<RegionUpdate>,
    )
        requires
            forall|i: int| 0 <= i < cs@.len() ==> prudence_fits(old(self)@, #[trigger] cs@[i].id),
        ensures
            final(self)@ == all_country_services(old(self)@, old(self)@, close, cs@, updates@),
    {
        let ghost start = self@;
        let mut plans: Vec<
            (
                ServiceAllocationSource,
                BTreeMap<u32, BasisPoints>,
                BTreeMap<u32, i128>,
                Vec<ServiceAllocationInfluence>,
            ),
        > = Vec::new();
        let mut i: usize = 0;
        while i < cs.len()
            invariant
                self@ == start,
                forall|x: int| 0 <= x < cs@.len() ==> prudence_fits(start, #[trigger] cs@[x].id),
                i <= cs@.len(),
                plans@.len() == i,
                forall|x: int|
                    0 <= x < i ==> {
                        let u = #[trigger] cs@[x];
                        &&& plans@[x].0 == planned_source(start, u.id)
                        &&& plans@[x].1@ == planned_shares(start, u.id)
                        &&& plans@[x].2@ == split_map(service_budget_of(u), planned_shares(start, u.id))
                        &&& plans@[x].3@ == planned_influences(start, u.id)
                    },
            decreases cs.len() - i,
        {
            let plan = self.plan_country_services(&cs[i]);
            plans.push(plan);
            i = i + 1;
        }
        let mut j: usize = 0;
        while j < cs.len()
            invariant
                j <= cs@.len(),
                plans@.len() == cs@.len(),
                forall|x: int|
                    0 <= x < cs@.len() ==> {
                        let u = #[trigger] cs@[x];
                        &&& plans@[x].0 == planned_source(start, u.id)
                        &&& plans@[x].1@ == planned_shares(start, u.id)
                        &&& plans@[x].2@ == split_map(service_budget_of(u), planned_shares(start, u.id))
                        &&& plans@[x].3@ == planned_influences(start, u.id)
                    },
                self@ == all_country_services(start, start, close, cs@.take(j as int), updates@),
            decreases cs.len() - j,
        {
            let u = cs[j];
            let plan = &plans[j];
            proof {
                assert(cs@.take(j + 1).drop_last() =~= cs@.take(j as int));
                let shares = planned_shares(start, u.id);
                let b = service_budget_of(u);
                assert(0 <= b <= 0x7fff_ffff_ffff_ffff) by (nonlinear_arith)
                    requires
                        b == (if u.spending@ > 0 {
                            u.spending@ as int
                        } else {
                            0
                        }) * 3_000 / 10_000,
                        u.spending@ <= 0x7fff_ffff_ffff_ffff,
                ;
                assert forall|k: u32| #[trigger]
                    plan.2@.contains_key(k) implies 0 <= plan.2@[k] <= 0x8_0000_0000_0000_0000 by {
                    let ks = key_order(shares);
                    assert(ks.contains(k));
                    let x = ks.index_of(k);
                    assert(0 <= x < ks.len());
                    assert(share_seq(shares).len() == ks.len());
                    lemma_split_amount_bounds(b, share_seq(shares), x);
                }
            }
            self.apply_country_services(close, u.id, updates, plan.0, &plan.1, &plan.2, &plan.3);
            j = j + 1;
        }
        proof {
            assert(cs@.take(cs@.len() as int) =~= cs@);
        }
    }

    /// Closes the planned country years in order (see `apply_country_years`).
    pub fn apply_country_years(&mut self, close: SimDate, cs: &Vec<CountryUpdate>)
        requires
            forall|i: int| 0 <= i < cs@.len() ==> old(self)@.countries.contains_key(#[trigger] cs@[i].id@),
        ensures
            final(self)@ == apply_country_years(old(self)@, close, cs@),
    {
        let ghost start = self@;
        let mut i: usize = 0;
        while i < cs.len()
            invariant
                forall|x: int| 0 <= x < cs@.len() ==> start.countries.contains_key(#[trigger] cs@[x].id@),
                i <= cs@.len(),
                self@ == apply_country_years(start, close, cs@.take(i as int)),
                self@.countries.dom() == start.countries.dom(),
            decreases cs.len() - i,
        {
            let u = cs[i];
            proof {
                assert(cs@.take(i + 1).drop_last() =~= cs@.take(i as int));
                assert(start.countries.contains_key(cs@[i as int].id@));
            }
            let ghost before = self@;
            let mut country = self.countries.remove(&u.id.get()).unwrap();
            country.indicators = CountryIndicators::new(u.treasury, u.debt, u.legitimacy, u.cohesion);
            self.countries.insert(u.id.get(), country);
            if u.interest.minor_units() > 0 {
                self.events.append(
                    close,
                    DomainEvent::PublicDebtInterestCharged {
                        country: u.id,
                        opening_debt: u.opening_debt,
                        interest: u.interest,
                    },
                );
            }
            if u.principal_written_off.minor_units() > 0 {
                self.events.append(
                    close,
                    DomainEvent::PublicDebtRestructured {
                        country: u.id,
                        debt_before: u.debt_before_restructuring,
                        debt_after: u.debt,
                        principal_written_off: u.principal_written_off,
                    },
                );
            }
            self.events.append(
                close,
                DomainEvent::CountryFiscalYearClosed {
                    country: u.id,
                    revenue: u.revenue,
                    spending: u.spending,
                    treasury: u.treasury,
                    debt: u.debt,
                },
            );
            self.events.append(
                close,
                DomainEvent::CountryLegitimacyPressureApplied {
                    country: u.id,
                    population_weighted_pressure: u.social_pressure,
                    legitimacy_effect: u.legitimacy_effect,
                },
            );
            self.events.append(
                close,
                DomainEvent::CountryRegionalConfidenceApplied {
                    country: u.id,
                    population_weighted_confidence: u.regional_confidence,
                    legitimacy_effect: u.regional_confidence_effect,
                },
            );
            self.events.append(
                close,
                DomainEvent::CountryPoliticsChanged {
                    country: u.id,
                    legitimacy: u.legitimacy,
                    elite_cohesion: u.cohesion,
                },
            );
            proof {
                assert(self@.events =~= before.events + country_year_events(close, u));
                assert(self@.countries.dom() =~= start.countries.dom());
                assert(self@ =~= apply_country_years(start, close, cs@.take(i + 1)));
            }
            i = i + 1;
        }
        proof {
            assert(cs@.take(cs@.len() as int) =~= cs@);
        }
    }
}

impl World {
    /// The service budget recorded for each region among `ids` by the events dated
    /// `close`.
    fn recorded_service_budgets(&self, close: SimDate, ids: &Vec<u32>) -> (r: Vec<i128>)
        ensures
            r@.len() == ids@.len(),
            forall|i: int|
                0 <= i < ids@.len() ==> r@[i] as int == recorded_service_budget(
                    self@.events,
                    close,
                    #[trigger] ids@[i],
                ),
    {
        let events = self.events.events();
        let mut totals: Vec<i128> = Vec::new();
        let mut i: usize = 0;
        while i < ids.len()
            invariant
                events@ == self@.events,
                i <= ids@.len(),
                totals@.len() == i,
                forall|x: int|
                    0 <= x < i ==> totals@[x] as int == recorded_service_budget(
                        self@.events,
                        close,
                        #[trigger] ids@[x],
                    ),
            decreases ids.len() - i,
        {
            let k = ids[i];
            let mut total: i128 = 0;
            let mut j: usize = 0;
            while j < events.len()
                invariant
                    events@ == self@.events,
                    j <= events@.len(),
                    total as int == recorded_service_budget(events@.take(j as int), close, k),
                    -(j * 0x8000_0000_0000_0000) <= total <= j * 0x8000_0000_0000_0000,
                decreases events.len() - j,
            {
                proof {
                    assert(events@.take(j + 1).drop_last() =~= events@.take(j as int));
                }
                let envelope = &events[j];
                if envelope.date == close {
                    if let DomainEvent::RegionalPublicServicesUpdated { region, service_budget, .. } = &envelope.event {
                        if region.get() == k {
                            total = total + service_budget.minor_units() as i128;
                        }
                    }
                }
                j = j + 1;
            }
            proof {
                assert(events@.take(events@.len() as int) =~= events@);
            }
            totals.push(total);
            i = i + 1;
        }
        totals
    }

    /// Updates every region's policy interest at an annual closure: its fiscal incidence
    /// from the service budgets recorded on `close_date` (this library collects no taxes),
    /// then its interest from its social pressure and that incidence. Fails, changing
    /// nothing, when a region's recorded budget does not fit the currency.
    pub fn update_annual_regional_interests(&mut self, close_date: SimDate) -> (r: Result<(), WorldError>)
        ensures
            outcomes_overflow(old(self)@, close_date) ==> r == Err::<(), WorldError>(
                WorldError::ArithmeticOverflow("regional services"),
            ) && final(self)@ == old(self)@,
            !outcomes_overflow(old(self)@, close_date) ==> r is Ok && final(self)@ == interests_after(
                old(self)@,
                close_date,
            ),
    {
        let ids = keys_in_order(&self.regions);
        let totals = self.recorded_service_budgets(close_date, &ids);
        let mut i: usize = 0;
        while i < ids.len()
            invariant
                ids@ == key_order(self@.regions),
                forall|x: int| 0 <= x < ids@.len() ==> self@.regions.contains_key(#[trigger] ids@[x]),
                totals@.len() == ids@.len(),
                forall|x: int|
                    0 <= x < ids@.len() ==> totals@[x] as int == recorded_service_budget(
                        self@.events,
                        close_date,
                        #[trigger] ids@[x],
                    ),
                i <= ids@.len(),
                forall|x: int| 0 <= x < i ==> fits_i64(#[trigger] totals@[x] as int),
            decreases ids.len() - i,
        {
            if totals[i] < i64::MIN as i128 || totals[i] > i64::MAX as i128 {
                proof {
                    assert(self@.regions.contains_key(ids@[i as int]));
                    assert(!fits_i64(recorded_service_budget(self@.events, close_date, ids@[i as int])));
                }
                return Err(WorldError::ArithmeticOverflow("regional services"));
            }
            i = i + 1;
        }
        proof {
            assert forall|k: u32| #[trigger] self@.regions.contains_key(k) implies fits_i64(
                recorded_service_budget(self@.events, close_date, k),
            ) by {
                assert(ids@.to_set().contains(k));
                let x = choose|x: int| 0 <= x < ids@.len() && ids@[x] == k;
                assert(fits_i64(totals@[x] as int));
            }
        }
        let ghost start = self@;
        let mut j: usize = 0;
        while j < ids.len()
            invariant
                ids@ == key_order(start.regions),
                forall|x: int| 0 <= x < ids@.len() ==> start.regions.contains_key(#[trigger] ids@[x]),
                totals@.len() == ids@.len(),
                forall|x: int|
                    0 <= x < ids@.len() ==> totals@[x] as int == recorded_service_budget(
                        start.events,
                        close_date,
                        #[trigger] ids@[x],
                    ),
                forall|x: int| 0 <= x < ids@.len() ==> fits_i64(#[trigger] totals@[x] as int),
                j <= ids@.len(),
                self@ == interest_steps(start, start.events, close_date, ids@.take(j as int)),
            decreases ids.len() - j,
        {
            let k = ids[j];
            proof {
                assert(ids@.take(j + 1).drop_last() =~= ids@.take(j as int));
            }
            let allocated = totals[j];
            assert(fits_i64(totals@[j as int] as int));
            let money = Money::from_minor_units(allocated as i64);
            let position = if allocated < 0 {
                RegionalFiscalPosition::NetContributor
            } else if allocated == 0 {
                RegionalFiscalPosition::Balanced
            } else {
                RegionalFiscalPosition::NetBeneficiary
            };
            let outcome = RegionalPolicyOutcome {
                taxes_paid: Money::zero(),
                service_allocation: money,
                net_transfer: money,
                fiscal_position: position,
            };
            let pressure = match self.regional_social_pressure.get(&k) {
                Some(p) => *p,
                None => RegionalSocialPressure::default(),
            };
            let previous = match self.regional_interests.get(&k) {
                Some(v) => *v,
                None => RegionalInterest::default(),
            };
            let next = update_interest(previous, pressure, position);
            self.regional_interests.insert(k, next);
            self.regional_policy_outcomes.insert(k, outcome);
            self.events.append(
                close_date,
                DomainEvent::RegionalPolicyOutcomeRecorded {
                    region: RegionId::new(k),
                    taxes_paid: outcome.taxes_paid,
                    service_allocation: outcome.service_allocation,
                    net_transfer: outcome.net_transfer,
                    fiscal_position: outcome.fiscal_position,
                },
            );
            self.events.append(
                close_date,
                DomainEvent::RegionalInterestUpdated {
                    region: RegionId::new(k),
                    previous_priority: previous.priority,
                    priority: next.priority,
                    priority_pressure: next.priority_pressure,
                    satisfaction: next.satisfaction,
                    years_persistent: next.years_persistent,
                },
            );
            proof {
                let before = interest_steps(start, start.events, close_date, ids@.take(j as int));
                assert(outcome == policy_outcome(start.events, close_date, k));
                assert(previous == interest_or_default(before, k));
                assert(pressure == pressure_or_default(before, k));
                assert(next == interest_after(previous, pressure, position));
                assert(self@ =~= interest_step(before, start.events, close_date, k));
            }
            j = j + 1;
        }
        proof {
            assert(ids@.take(ids@.len() as int) =~= ids@);
        }
        Ok(())
    }
}

impl World {
    /// Closes the current year (see `year_after`) atomically: an error changes nothing.
    pub fn advance_one_year(&mut self) -> (r: Result<(), WorldError>)
        requires
            year_preconditions(old(self)@),
        ensures
            year_error(old(self)@) matches Some(e) ==> r == Err::<(), WorldError>(e) && final(self)@
                == old(self)@,
            year_error(old(self)@) is None ==> r is Ok && final(self)@ == year_after(old(self)@),
    {
        let year = self.date.year();
        if let Some(closed) = self.last_annual_closure_year {
            if closed == year {
                return Err(WorldError::AnnualClosureAlreadyExecuted(year));
            }
        }
        let mut close = self.date;
        if let Err(e) = close.advance_years(1) {
            return Err(WorldError::Time(e));
        }
        let region_ids = keys_in_order(&self.regions);
        let country_ids = keys_in_order(&self.countries);
        let regions = self.plan_regions(year)?;
        let ghost w = self@;
        proof {
            let ids = key_order(w.regions);
            assert forall|i: int| 0 <= i < ids.len() implies regions@[i] == planned_regions(w, year)[i] by {
                lemma_region_year_is_planned(regions@[i], w, year, ids[i]);
            }
            assert(regions@ =~= planned_regions(w, year));
        }
        let pressure = self.plan_annual_regional_social_pressure();
        let countries = self.plan_countries(year, &regions, &pressure)?;
        proof {
            let ids = key_order(w.countries);
            assert forall|i: int| 0 <= i < ids.len() implies countries@[i] == year_countries(w)[i] by {
                lemma_country_year_is_planned(countries@[i], w, year, ids[i], regions@, pressure@);
            }
            assert(countries@ =~= year_countries(w));
            assert forall|i: int| 0 <= i < regions@.len() implies w.regions.contains_key(
                #[trigger] regions@[i].id@,
            ) by {
                assert(regions@[i] == planned_regions(w, year)[i]);
                assert(w.regions.contains_key(region_ids@[i]));
            }
            assert forall|i: int| 0 <= i < countries@.len() implies w.countries.contains_key(
                #[trigger] countries@[i].id@,
            ) && prudence_fits(year_after_regions(w), countries@[i].id) by {
                let id = country_ids@[i];
                assert(w.countries.contains_key(id));
                assert(countries@[i] == year_countries(w)[i]);
                assert(countries@[i].id == w.countries[id].id);
            }
        }
        self.apply_region_years(close, &regions);
        self.apply_pressure(close, pressure);
        proof {
            assert(self@ == year_after_regions(w));
            lemma_region_years_keep_countries(w, close, regions@);
            assert(self@.countries == w.countries);
        }
        self.apply_all_country_services(close, &countries, &regions);
        proof {
            assert(self@.countries == w.countries) by {
                lemma_services_keep_countries(
                    year_after_regions(w),
                    year_after_regions(w),
                    close,
                    countries@,
                    regions@,
                );
            }
        }
        self.apply_country_years(close, &countries);
        proof {
            assert(self@ == year_before_interests(w));
        }
        if let Err(e) = self.update_annual_regional_interests(close) {
            return Err(e);
        }
        proof {
            assert(self@ == year_before_migration(w));
        }
        self.execute_annual_internal_migration(close);
        self.date = close;
        self.last_annual_closure_year = Some(year);
        self.events.append(close, DomainEvent::YearAdvanced { year: close.year() });
        proof {
            assert(self@ =~= year_after(w));
        }
        Ok(())
    }

    /// Closes `years` years in turn. A failing year leaves no partial change and ends the
    /// run with its error; every year before it stays closed.
    pub fn advance_years(&mut self, years: u32) -> (r: Result<(), WorldError>)
        requires
            years_preconditions(old(self)@, years as nat),
        ensures
            final(self)@ == years_run(old(self)@, years as nat).0,
            r == (match years_run(old(self)@, years as nat).1 {
                Some(e) => Err::<(), WorldError>(e),
                None => Ok(()),
            }),
    {
        let ghost start = self@;
        let mut k: u32 = 0;
        while k < years
            invariant
                start == old(self)@,
                k <= years,
                years_preconditions(start, years as nat),
                years_run(start, k as nat).1 is None,
                self@ == years_run(start, k as nat).0,
            decreases years - k,
        {
            proof {
                assert(year_preconditions(years_run(start, k as nat).0));
            }
            let step = self.advance_one_year();
            proof {
                assert(years_run(start, (k + 1) as nat) == (if year_error(years_run(start, k as nat).0) is Some {
                    (years_run(start, k as nat).0, year_error(years_run(start, k as nat).0))
                } else {
                    (year_after(years_run(start, k as nat).0), None)
                }));
            }
            match step {
                Err(e) => {
                    proof {
                        lemma_failed_year_sticks(start, (k + 1) as nat, years as nat);
                    }
                    return Err(e);
                },
                Ok(()) => {},
            }
            k = k + 1;
        }
        Ok(())
    }
}

} // verus!
