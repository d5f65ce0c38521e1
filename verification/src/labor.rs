use vstd::prelude::*;

use std::collections::BTreeMap;

use crate::cohort::EducationLevel;
use crate::cohort::{EmploymentStatus, HouseholdCohort};
use crate::ids::{CohortId, FirmId, RecipeId, RegionId, SkillId};
use crate::ordered::{is_key_order, is_pair_key_order, key_order, keys_in_order, pair_key_order, pair_keys_in_order};
use crate::value::Money;
use crate::world::{World, WorldError, WorldView};

verus! {

/// A firm-to-cohort wage agreement.
#[derive(Clone, Copy, Debug, PartialEq, Eq, Structural)]
pub struct EmploymentAgreement {
    pub firm: FirmId,
    pub cohort: CohortId,
    pub workers: u64,
    pub monthly_wage_per_worker: Money,
    pub arrears: Money,
    pub active: bool,
    pub months_at_current_firm: u8,
}

impl EmploymentAgreement {
    /// Creates an active agreement without arrears or tenure; rejects zero workers or
    /// a non-positive wage.
    pub fn new(firm: FirmId, cohort: CohortId, workers: u64, wage: Money) -> (r: Result<
        Self,
        WorldError,
    >)
        ensures
            (workers == 0 || wage@ <= 0) ==> r == Err::<Self, WorldError>(
                WorldError::InvalidEmployment("workers and wage must be positive"),
            ),
            !(workers == 0 || wage@ <= 0) ==> (r matches Ok(a) && a.firm == firm && a.cohort
                == cohort && a.workers == workers && a.monthly_wage_per_worker == wage
                && a.arrears@ == 0 && a.active && a.months_at_current_firm == 0),
    {
        if workers == 0 || wage.minor_units() <= 0 {
            return Err(WorldError::InvalidEmployment("workers and wage must be positive"));
        }
        Ok(
            EmploymentAgreement {
                firm,
                cohort,
                workers,
                monthly_wage_per_worker: wage,
                arrears: Money::zero(),
                active: true,
                months_at_current_firm: 0,
            },
        )
    }

    pub fn firm(&self) -> (r: FirmId)
        ensures
            r == self.firm,
    {
        self.firm
    }

    pub fn cohort(&self) -> (r: CohortId)
        ensures
            r == self.cohort,
    {
        self.cohort
    }

    pub fn workers(&self) -> (r: u64)
        ensures
            r == self.workers,
    {
        self.workers
    }

    pub fn wage(&self) -> (r: Money)
        ensures
            r == self.monthly_wage_per_worker,
    {
        self.monthly_wage_per_worker
    }

    pub fn arrears(&self) -> (r: Money)
        ensures
            r == self.arrears,
    {
        self.arrears
    }

    pub fn active(&self) -> (r: bool)
        ensures
            r == self.active,
    {
        self.active
    }

    pub fn months_at_current_firm(&self) -> (r: u8)
        ensures
            r == self.months_at_current_firm,
    {
        self.months_at_current_firm
    }

    /// Sets the head count: a resumed agreement restarts its tenure, and an agreement
    /// is active exactly while it has workers.
    pub fn set_workers(&mut self, workers: u64)
        ensures
            final(self).workers == workers,
            final(self).active == (workers > 0),
            final(self).months_at_current_firm == if old(self).workers == 0 && workers > 0 {
                0
            } else {
                old(self).months_at_current_firm
            },
            final(self).firm == old(self).firm,
            final(self).cohort == old(self).cohort,
            final(self).monthly_wage_per_worker == old(self).monthly_wage_per_worker,
            final(self).arrears == old(self).arrears,
    {
        if self.workers == 0 && workers > 0 {
            self.months_at_current_firm = 0;
        }
        self.workers = workers;
        self.active = workers > 0;
    }

    /// Adds a month of tenure to an active agreement (saturating).
    pub fn advance_tenure(&mut self)
        ensures
            final(self).months_at_current_firm == if old(self).active {
                if old(self).months_at_current_firm == u8::MAX {
                    u8::MAX
                } else {
                    (old(self).months_at_current_firm + 1) as u8
                }
            } else {
                old(self).months_at_current_firm
            },
            final(self).workers == old(self).workers,
            final(self).active == old(self).active,
            final(self).firm == old(self).firm,
            final(self).cohort == old(self).cohort,
            final(self).monthly_wage_per_worker == old(self).monthly_wage_per_worker,
            final(self).arrears == old(self).arrears,
    {
        if self.active {
            self.months_at_current_firm = self.months_at_current_firm.saturating_add(1);
        }
    }

    /// Pays arrears up to what is available (nothing when less than zero is
    /// available) and returns what was paid.
    pub fn settle_arrears_up_to(&mut self, available: Money) -> (r: Money)
        ensures
            ({
                let avail = if available@ > 0 {
                    available@ as int
                } else {
                    0
                };
                let paid = if old(self).arrears@ < avail {
                    old(self).arrears@ as int
                } else {
                    avail
                };
                &&& r@ == paid
                &&& final(self).arrears@ == old(self).arrears@ - paid
            }),
            final(self).workers == old(self).workers,
            final(self).active == old(self).active,
            final(self).firm == old(self).firm,
            final(self).cohort == old(self).cohort,
            final(self).monthly_wage_per_worker == old(self).monthly_wage_per_worker,
            final(self).months_at_current_firm == old(self).months_at_current_firm,
    {
        let avail: i64 = if available.minor_units() > 0 {
            available.minor_units()
        } else {
            0
        };
        let owed = self.arrears.minor_units();
        let paid: i64 = if owed < avail {
            owed
        } else {
            avail
        };
        self.arrears = Money::from_minor_units(owed - paid);
        Money::from_minor_units(paid)
    }
}

/// One payroll settlement of an agreement.
#[derive(Clone, Copy, Debug, PartialEq, Eq, Structural)]
pub struct PayrollRecord {
    pub firm: FirmId,
    pub cohort: CohortId,
    pub owed: Money,
    pub paid: Money,
    pub arrears: Money,
}

/// Observed supply and demand of labor in one region.
#[derive(Clone, Copy, Debug, PartialEq, Eq, Structural)]
pub struct RegionalLaborMarketObservation {
    pub region: RegionId,
    pub available_workers: u64,
    pub vacancies: u64,
    pub offers: u64,
    pub hires: u64,
    pub average_offered_wage: Money,
    pub unemployment_pressure_months: u8,
    pub vacancy_pressure_months: u8,
}

/// Observed supply and demand of qualified labor in one region, for one education level.
#[derive(Clone, Copy, Debug, PartialEq, Eq, Structural)]
pub struct RegionalSkillLaborMarketObservation {
    pub region: RegionId,
    pub minimum_education: EducationLevel,
    pub qualified_available_workers: u64,
    pub vacancies: u64,
    pub unemployment_pressure_months: u8,
    pub vacancy_pressure_months: u8,
}

/// Who pays for a cohort's training.
#[derive(Clone, Copy, Debug, PartialEq, Eq, Structural)]
pub enum TrainingSponsor {
    Household,
    Firm(FirmId),
}

/// The workers that the agreements `ks` assign to `firm`.
pub open spec fn firm_allocated(m: Map<(u32, u32), EmploymentAgreement>, ks: Seq<(u32, u32)>, firm: FirmId) -> int
    decreases ks.len(),
{
    if ks.len() == 0 {
        0
    } else {
        firm_allocated(m, ks.drop_last(), firm) + if m[ks.last()].firm == firm {
            m[ks.last()].workers as int
        } else {
            0int
        }
    }
}

/// The workers that the agreements `ks` draw from `cohort`.
pub open spec fn cohort_allocated(m: Map<(u32, u32), EmploymentAgreement>, ks: Seq<(u32, u32)>, cohort: CohortId) -> int
    decreases ks.len(),
{
    if ks.len() == 0 {
        0
    } else {
        cohort_allocated(m, ks.drop_last(), cohort) + if m[ks.last()].cohort == cohort {
            m[ks.last()].workers as int
        } else {
            0int
        }
    }
}

/// Whether the firm and cohort of `a` exist, share a region, and have no agreement yet.
pub open spec fn agreement_admissible(w: WorldView, a: EmploymentAgreement) -> bool {
    &&& w.firms.contains_key(a.firm@)
    &&& w.cohorts.contains_key(a.cohort@)
    &&& w.firms[a.firm@].spec_region() == w.cohorts[a.cohort@].region
    &&& !w.employment_agreements.contains_key((a.firm@, a.cohort@))
}

/// Why an agreement is refused, checked in this order: an unknown firm or cohort, a firm
/// and cohort in different regions, an existing agreement between them, or more workers
/// than the firm employs or the cohort holds.
pub open spec fn agreement_error(w: WorldView, a: EmploymentAgreement) -> Option<WorldError> {
    let ks = pair_key_order(w.employment_agreements);
    if !w.firms.contains_key(a.firm@) {
        Some(WorldError::UnknownFirm(a.firm))
    } else if !w.cohorts.contains_key(a.cohort@) {
        Some(WorldError::UnknownCohort(a.cohort))
    } else if w.firms[a.firm@].spec_region() != w.cohorts[a.cohort@].region {
        Some(WorldError::InvalidEmployment("firm and cohort must share a region"))
    } else if w.employment_agreements.contains_key((a.firm@, a.cohort@)) {
        Some(WorldError::InvalidEmployment("duplicate employment agreement"))
    } else if firm_allocated(w.employment_agreements, ks, a.firm) + a.workers > w.firms[a.firm@].spec_workers()
        || cohort_allocated(w.employment_agreements, ks, a.cohort) + a.workers > w.cohorts[a.cohort@].people@ {
        Some(WorldError::InvalidEmployment("employment exceeds workers or cohort population"))
    } else {
        None
    }
}

impl World {
    /// Registers a firm-to-cohort agreement between a firm and a cohort of one region,
    /// within the firm's workforce and the cohort's people; a refusal changes nothing.
    pub fn register_employment_agreement(&mut self, agreement: EmploymentAgreement) -> (r: Result<(), WorldError>)
        requires
            agreement_admissible(old(self)@, agreement) ==> {
                let ks = pair_key_order(old(self)@.employment_agreements);
                &&& firm_allocated(old(self)@.employment_agreements, ks, agreement.firm) + agreement.workers <= u64::MAX
                &&& cohort_allocated(old(self)@.employment_agreements, ks, agreement.cohort) + agreement.workers
                    <= u64::MAX
            },
        ensures
            agreement_error(old(self)@, agreement) matches Some(e) ==> r == Err::<(), WorldError>(e) && final(self)@
                == old(self)@,
            agreement_error(old(self)@, agreement) is None ==> r is Ok && final(self)@ == (WorldView {
                employment_agreements: old(self)@.employment_agreements.insert(
                    (agreement.firm@, agreement.cohort@),
                    agreement,
                ),
                ..old(self)@
            }),
    {
        let firm = match self.firms.get(&agreement.firm.get()) {
            Some(f) => f,
            None => {
                return Err(WorldError::UnknownFirm(agreement.firm));
            },
        };
        let cohort = match self.cohorts.get(&agreement.cohort.get()) {
            Some(c) => *c,
            None => {
                return Err(WorldError::UnknownCohort(agreement.cohort));
            },
        };
        if firm.region() != cohort.region {
            return Err(WorldError::InvalidEmployment("firm and cohort must share a region"));
        }
        let key = (agreement.firm.get(), agreement.cohort.get());
        if self.employment_agreements.contains_key(&key) {
            return Err(WorldError::InvalidEmployment("duplicate employment agreement"));
        }
        let ks = pair_keys_in_order(&self.employment_agreements);
        let ghost m = self@.employment_agreements;
        let mut firm_total: u128 = 0;
        let mut cohort_total: u128 = 0;
        let mut i: usize = 0;
        while i < ks.len()
            invariant
                m == self@.employment_agreements,
                ks@ == pair_key_order(m),
                forall|j: int| 0 <= j < ks@.len() ==> m.contains_key(#[trigger] ks@[j]),
                i <= ks.len(),
                firm_total as int == firm_allocated(m, ks@.take(i as int), agreement.firm),
                cohort_total as int == cohort_allocated(m, ks@.take(i as int), agreement.cohort),
                firm_total <= i * 0xffff_ffff_ffff_ffffu128,
                cohort_total <= i * 0xffff_ffff_ffff_ffffu128,
            decreases ks.len() - i,
        {
            let a = self.employment_agreements.get(&ks[i]).unwrap();
            proof {
                assert(ks@.take(i + 1).drop_last() =~= ks@.take(i as int));
            }
            if a.firm == agreement.firm {
                firm_total = firm_total + a.workers as u128;
            }
            if a.cohort == agreement.cohort {
                cohort_total = cohort_total + a.workers as u128;
            }
            i = i + 1;
        }
        proof {
            assert(ks@.take(ks@.len() as int) =~= ks@);
        }
        if firm_total + agreement.workers as u128 > firm.workers() as u128 || cohort_total
            + agreement.workers as u128 > cohort.people.people() as u128 {
            return Err(WorldError::InvalidEmployment("employment exceeds workers or cohort population"));
        }
        self.employment_agreements.insert(key, agreement);
        Ok(())
    }

    /// The employment agreements by (firm, cohort).
    pub fn employment_agreements(&self) -> (r: &BTreeMap<(u32, u32), EmploymentAgreement>)
        ensures
            r@ == self@.employment_agreements,
    {
        &self.employment_agreements
    }
}

/// A proposed move of one worker of a cohort from one firm to a better offer of another.
#[derive(Clone, Copy, Debug, PartialEq, Eq, Structural)]
pub struct EmploymentSwitch {
    pub from_firm: FirmId,
    pub to_firm: FirmId,
    pub cohort: CohortId,
    pub previous_wage: Money,
    pub offered_wage: Money,
    pub minimum_education: EducationLevel,
    pub labor_market_adjustment_basis_points: i16,
}

/// The workers that the active agreements `ks` assign to `firm`.
pub open spec fn firm_staffed(m: Map<(u32, u32), EmploymentAgreement>, ks: Seq<(u32, u32)>, firm: FirmId) -> int
    decreases ks.len(),
{
    if ks.len() == 0 {
        0
    } else {
        firm_staffed(m, ks.drop_last(), firm) + if m[ks.last()].firm == firm && m[ks.last()].active {
            m[ks.last()].workers as int
        } else {
            0int
        }
    }
}

/// The batches a firm aims to produce this month: its recorded target, else its capacity.
pub open spec fn production_target(w: WorldView, firm: u32) -> int {
    if w.firm_production_targets.contains_key(firm) {
        w.firm_production_targets[firm] as int
    } else {
        w.firms[firm].spec_capacity() as int
    }
}

/// The open positions of a firm: the workers its target needs (at most its workforce)
/// beyond those its active agreements hold.
pub open spec fn labor_vacancy(w: WorldView, firm: FirmId) -> Result<int, WorldError> {
    if !w.firms.contains_key(firm@) {
        Err(WorldError::UnknownFirm(firm))
    } else {
        let f = w.firms[firm@];
        if !w.production_recipes.contains_key(f.spec_recipe()@) {
            Err(WorldError::UnknownRecipe(f.spec_recipe()))
        } else {
            let need = production_target(w, firm@) * w.production_recipes[f.spec_recipe()@].spec_labor();
            if need > u64::MAX {
                Err(WorldError::ArithmeticOverflow("labor vacancy requirement"))
            } else {
                let required = if (need + 999) / 1000 < f.spec_workers() {
                    (need + 999) / 1000
                } else {
                    f.spec_workers() as int
                };
                let staffed = firm_staffed(
                    w.employment_agreements,
                    crate::ordered::pair_key_order(w.employment_agreements),
                    firm,
                );
                Ok(
                    if required > staffed {
                        required - staffed
                    } else {
                        0
                    },
                )
            }
        }
    }
}

/// The wage adjustment a region's qualified-labor market calls for: up to +20% after
/// long vacancy pressure, down to -10% after long unemployment pressure.
pub open spec fn skill_adjustment(w: WorldView, firm: u32) -> int {
    let f = w.firms[firm];
    if !w.recipe_minimum_education.contains_key(f.spec_recipe()@) {
        0
    } else {
        let key = (f.spec_region()@, crate::cohort::education_rank(w.recipe_minimum_education[f.spec_recipe()@]) as u32);
        if !w.regional_skill_labor_market.contains_key(key) {
            0
        } else {
            let row = w.regional_skill_labor_market[key];
            if row.vacancy_pressure_months >= 3 {
                (if row.vacancy_pressure_months / 3 < 4 { row.vacancy_pressure_months / 3 } else { 4 }) * 500
            } else if row.unemployment_pressure_months >= 3 {
                -((if row.unemployment_pressure_months / 3 < 4 { row.unemployment_pressure_months / 3 } else { 4 })
                    * 250)
            } else {
                0
            }
        }
    }
}

/// The monthly wage a firm bids for a cohort's worker, with the market adjustment: the
/// cohort's monthly income per person (at least one), raised by the firm's urgency (5%
/// plus 15% of its target over its capacity) and the adjustment, rounded up.
pub open spec fn competitive_bid(w: WorldView, firm: u32, cohort: u32) -> Result<(int, int), WorldError> {
    let f = w.firms[firm];
    let target = production_target(w, firm);
    let capacity = if f.spec_capacity() > 1 {
        f.spec_capacity() as int
    } else {
        1
    };
    let scaled = if target * 1500 > u64::MAX {
        u64::MAX as int
    } else {
        target * 1500
    };
    let urgency = if 500 + scaled / capacity > u64::MAX {
        u64::MAX as int
    } else {
        500 + scaled / capacity
    };
    let adjustment = skill_adjustment(w, firm);
    let c = w.cohorts[cohort];
    let people = if c.people@ > 1 {
        c.people@ as int
    } else {
        1
    };
    if people > i64::MAX {
        Err(WorldError::ArithmeticOverflow("labor bid population"))
    } else {
        let base = crate::pricing::tdiv(crate::pricing::tdiv(c.annual_income@ as int, people), 12);
        let lifted = if 10_000 + urgency > u64::MAX {
            u64::MAX as int
        } else {
            10_000 + urgency
        };
        let multiplier = lifted + adjustment;
        let numerator = (if base > 1 {
            base
        } else {
            1
        }) * multiplier;
        let wage = (numerator + 9_999) / 10_000;
        if wage > i64::MAX {
            Err(WorldError::ArithmeticOverflow("competitive labor bid"))
        } else {
            Ok((wage, adjustment))
        }
    }
}

/// The message of a refused switch of a worker that does not qualify or is not offered
/// enough.
pub open spec fn unqualified_switch() -> &'static str {
    "employment switch requires a qualified worker and a current 10% better funded bid"
}

/// Why a switch is refused, checked in this order: the same firm or a target without a
/// vacancy (or its vacancy error), an unknown firm, a target recipe without a configured
/// education, an unknown cohort, a missing source agreement, a bid error, and then a
/// switch that is not valid: firms and cohort in different regions, a worker below the
/// education, a stale education, wage or adjustment, an inactive, empty or recent source
/// agreement, a target that cannot pay the wage, or an offer less than 10% better.
pub open spec fn switch_error(w: WorldView, s: EmploymentSwitch) -> Option<WorldError> {
    let vacancy = labor_vacancy(w, s.to_firm);
    if s.from_firm == s.to_firm {
        Some(WorldError::InvalidEmployment("employment switch requires a distinct firm with a vacancy"))
    } else if vacancy is Err {
        Some(vacancy->Err_0)
    } else if vacancy->Ok_0 == 0 {
        Some(WorldError::InvalidEmployment("employment switch requires a distinct firm with a vacancy"))
    } else if !w.firms.contains_key(s.from_firm@) {
        Some(WorldError::UnknownFirm(s.from_firm))
    } else if !w.recipe_minimum_education.contains_key(w.firms[s.to_firm@].spec_recipe()@) {
        Some(
            WorldError::InvalidEmployment(
                "employment switch requires an explicitly configured target recipe",
            ),
        )
    } else if !w.cohorts.contains_key(s.cohort@) {
        Some(WorldError::UnknownCohort(s.cohort))
    } else if !w.employment_agreements.contains_key((s.from_firm@, s.cohort@)) {
        Some(WorldError::InvalidEmployment("employment switch source agreement is missing"))
    } else {
        match competitive_bid(w, s.to_firm@, s.cohort@) {
            Err(e) => Some(e),
            Ok((wage, adjustment)) => {
                let source = w.firms[s.from_firm@];
                let target = w.firms[s.to_firm@];
                let c = w.cohorts[s.cohort@];
                let minimum = w.recipe_minimum_education[target.spec_recipe()@];
                let a = w.employment_agreements[(s.from_firm@, s.cohort@)];
                if source.spec_region() != target.spec_region() || c.region != target.spec_region()
                    || crate::cohort::education_rank(c.education) < crate::cohort::education_rank(minimum)
                    || s.minimum_education != minimum || !a.active || a.workers == 0
                    || a.months_at_current_firm < 3 || a.monthly_wage_per_worker != s.previous_wage
                    || s.offered_wage@ != wage || s.labor_market_adjustment_basis_points != adjustment
                    || target.spec_cash() < s.offered_wage@ || s.offered_wage@ * 100 < s.previous_wage@
                    * 110 {
                    Some(WorldError::InvalidEmployment(unqualified_switch()))
                } else {
                    None
                }
            },
        }
    }
}

/// The agreements after one worker leaves the source agreement of a valid switch.
pub open spec fn switch_released(w: WorldView, s: EmploymentSwitch) -> Map<(u32, u32), EmploymentAgreement> {
    let key = (s.from_firm@, s.cohort@);
    let a = w.employment_agreements[key];
    w.employment_agreements.insert(
        key,
        EmploymentAgreement { workers: (a.workers - 1) as u64, active: a.workers - 1 > 0, ..a },
    )
}

/// The agreement a switch creates at the target firm.
pub open spec fn switch_new_agreement(s: EmploymentSwitch) -> EmploymentAgreement {
    EmploymentAgreement {
        firm: s.to_firm,
        cohort: s.cohort,
        workers: 1,
        monthly_wage_per_worker: s.offered_wage,
        arrears: Money::spec_from(0),
        active: true,
        months_at_current_firm: 0,
    }
}

/// The outcome of a valid switch: the worker leaves the source agreement and joins the
/// target's agreement at the offered wage, or a new one; a new agreement the target or
/// cohort cannot hold is refused.
pub open spec fn switch_result(w: WorldView, s: EmploymentSwitch) -> Result<WorldView, WorldError> {
    let released = switch_released(w, s);
    let w1 = WorldView { employment_agreements: released, ..w };
    let target_key = (s.to_firm@, s.cohort@);
    let event = crate::event::EventEnvelope {
        date: w.date,
        event: crate::event::DomainEvent::EmploymentSwitched {
            from_firm: s.from_firm,
            to_firm: s.to_firm,
            cohort: s.cohort,
            previous_wage: s.previous_wage,
            offered_wage: s.offered_wage,
            minimum_education: s.minimum_education,
            labor_market_adjustment_basis_points: s.labor_market_adjustment_basis_points,
        },
    };
    if released.contains_key(target_key) {
        let t = released[target_key];
        let workers = if t.workers + 1 > u64::MAX {
            u64::MAX as int
        } else {
            t.workers + 1
        };
        Ok(
            WorldView {
                employment_agreements: released.insert(
                    target_key,
                    EmploymentAgreement {
                        workers: workers as u64,
                        active: true,
                        months_at_current_firm: if t.workers == 0 {
                            0
                        } else {
                            t.months_at_current_firm
                        },
                        monthly_wage_per_worker: s.offered_wage,
                        ..t
                    },
                ),
                events: w.events.push(event),
                ..w
            },
        )
    } else {
        match agreement_error(w1, switch_new_agreement(s)) {
            Some(e) => Err(e),
            None => Ok(
                WorldView {
                    employment_agreements: released.insert(target_key, switch_new_agreement(s)),
                    events: w.events.push(event),
                    ..w
                },
            ),
        }
    }
}

/// A funded bid of a firm for one worker of a qualified cohort.
#[derive(Clone, Copy, Debug, PartialEq, Eq, Structural)]
pub struct EmploymentMatch {
    pub firm: FirmId,
    pub cohort: CohortId,
    pub wage: Money,
    pub minimum_education: EducationLevel,
    pub labor_market_adjustment_basis_points: i16,
}

/// A cohort's course toward the next education level, and who paid for it.
#[derive(Clone, Copy, Debug, PartialEq, Eq, Structural)]
pub struct WorkforceTraining {
    pub cohort: CohortId,
    pub previous_education: EducationLevel,
    pub target_education: EducationLevel,
    pub months_remaining: u8,
    pub tuition_paid: Money,
    pub sponsor: TrainingSponsor,
}

/// The workers that the active agreements `ks` draw from `cohort`.
pub open spec fn cohort_staffed(m: Map<(u32, u32), EmploymentAgreement>, ks: Seq<(u32, u32)>, cohort: CohortId) -> int
    decreases ks.len(),
{
    if ks.len() == 0 {
        0
    } else {
        cohort_staffed(m, ks.drop_last(), cohort) + if m[ks.last()].cohort == cohort && m[ks.last()].active {
            m[ks.last()].workers as int
        } else {
            0int
        }
    }
}

/// The people of a cohort that no active agreement employs (none of an unknown cohort).
pub open spec fn available_workers(w: WorldView, cohort: u32) -> int {
    if !w.cohorts.contains_key(cohort) {
        0
    } else {
        let staffed = cohort_staffed(
            w.employment_agreements,
            pair_key_order(w.employment_agreements),
            CohortId(cohort),
        );
        if w.cohorts[cohort].people@ > staffed {
            w.cohorts[cohort].people@ - staffed
        } else {
            0
        }
    }
}

/// Whether a cohort has the skill a recipe requires, with a positive proficiency; a
/// recipe that requires none accepts every cohort.
pub open spec fn has_recipe_skill(w: WorldView, cohort: u32, recipe: u32) -> bool {
    w.recipe_required_skill.contains_key(recipe) ==> {
        let key = (cohort, w.recipe_required_skill[recipe]@);
        w.cohort_skills.contains_key(key) && w.cohort_skills[key] > 0
    }
}

/// Why a match is refused, checked in this order: a non-positive wage or a firm without
/// a vacancy (or its vacancy error), a firm that cannot pay the wage, a recipe without a
/// configured education, an unknown cohort, a worker that is not a qualified unallocated
/// local one (region, unemployment, education, recipe skill, the stated education, a
/// free worker), a bid error, and a wage or adjustment that is not the current bid.
pub open spec fn match_error(w: WorldView, m: EmploymentMatch) -> Option<WorldError> {
    if m.wage@ <= 0 {
        Some(WorldError::InvalidEmployment("labor match requires a funded vacancy"))
    } else {
        match labor_vacancy(w, m.firm) {
            Err(e) => Some(e),
            Ok(v) => {
                let f = w.firms[m.firm@];
                if v == 0 {
                    Some(WorldError::InvalidEmployment("labor match requires a funded vacancy"))
                } else if f.spec_cash() < m.wage@ {
                    Some(WorldError::InsufficientFirmCash(m.firm))
                } else if !w.recipe_minimum_education.contains_key(f.spec_recipe()@) {
                    Some(
                        WorldError::InvalidEmployment(
                            "labor match requires an explicitly configured recipe labor profile",
                        ),
                    )
                } else if !w.cohorts.contains_key(m.cohort@) {
                    Some(WorldError::UnknownCohort(m.cohort))
                } else {
                    let c = w.cohorts[m.cohort@];
                    let minimum = w.recipe_minimum_education[f.spec_recipe()@];
                    if c.region != f.spec_region() || c.employment != EmploymentStatus::Unemployed
                        || crate::cohort::education_rank(c.education) < crate::cohort::education_rank(minimum)
                        || !has_recipe_skill(w, m.cohort@, f.spec_recipe()@) || m.minimum_education != minimum
                        || available_workers(w, m.cohort@) == 0 {
                        Some(
                            WorldError::InvalidEmployment(
                                "labor match requires a qualified unallocated local worker",
                            ),
                        )
                    } else {
                        match competitive_bid(w, m.firm@, m.cohort@) {
                            Err(e) => Some(e),
                            Ok((wage, adjustment)) => if m.wage@ != wage || m.labor_market_adjustment_basis_points
                                != adjustment {
                                Some(
                                    WorldError::InvalidEmployment(
                                        "labor match wage must equal the current observed competitive bid",
                                    ),
                                )
                            } else {
                                None
                            },
                        }
                    }
                }
            },
        }
    }
}

/// The agreement a match creates between a firm and a cohort without one.
pub open spec fn match_new_agreement(m: EmploymentMatch) -> EmploymentAgreement {
    EmploymentAgreement {
        firm: m.firm,
        cohort: m.cohort,
        workers: 1,
        monthly_wage_per_worker: m.wage,
        arrears: Money::spec_from(0),
        active: true,
        months_at_current_firm: 0,
    }
}

/// The outcome of a valid match: the worker joins the firm's agreement with the cohort
/// at the matched wage (one more worker, saturating; a resumed agreement restarts its
/// tenure), or a new agreement, which is refused where the firm or cohort cannot hold
/// it; the match is recorded.
pub open spec fn match_result(w: WorldView, m: EmploymentMatch) -> Result<WorldView, WorldError> {
    let key = (m.firm@, m.cohort@);
    let event = crate::event::EventEnvelope {
        date: w.date,
        event: crate::event::DomainEvent::EmploymentMatched {
            firm: m.firm,
            cohort: m.cohort,
            workers: 1,
            wage: m.wage,
            minimum_education: m.minimum_education,
            labor_market_adjustment_basis_points: m.labor_market_adjustment_basis_points,
        },
    };
    if w.employment_agreements.contains_key(key) {
        let a = w.employment_agreements[key];
        let workers = if a.workers + 1 > u64::MAX {
            u64::MAX as int
        } else {
            a.workers + 1
        };
        Ok(
            WorldView {
                employment_agreements: w.employment_agreements.insert(
                    key,
                    EmploymentAgreement {
                        workers: workers as u64,
                        active: true,
                        months_at_current_firm: if a.workers == 0 {
                            0
                        } else {
                            a.months_at_current_firm
                        },
                        monthly_wage_per_worker: m.wage,
                        ..a
                    },
                ),
                events: w.events.push(event),
                ..w
            },
        )
    } else {
        match agreement_error(w, match_new_agreement(m)) {
            Some(e) => Err(e),
            None => Ok(
                WorldView {
                    employment_agreements: w.employment_agreements.insert(key, match_new_agreement(m)),
                    events: w.events.push(event),
                    ..w
                },
            ),
        }
    }
}

/// Whether a course ends this month.
pub open spec fn training_ends(t: WorkforceTraining) -> bool {
    t.months_remaining <= 1
}

/// The first cohort of `ks` whose course ends this month but which is not registered.
pub open spec fn stalled_training(w: WorldView, ks: Seq<u32>) -> Option<u32>
    decreases ks.len(),
{
    if ks.len() == 0 {
        None
    } else {
        match stalled_training(w, ks.drop_last()) {
            Some(c) => Some(c),
            None => if training_ends(w.workforce_training[ks.last()]) && !w.cohorts.contains_key(ks.last()) {
                Some(ks.last())
            } else {
                None
            },
        }
    }
}

/// A month of cohort `c`'s course: a month less to go, or in its last month the cohort
/// reaches the target education, the course closes and the completion is recorded.
pub open spec fn training_month(v: WorldView, c: u32) -> WorldView {
    let t = v.workforce_training[c];
    if !training_ends(t) {
        WorldView {
            workforce_training: v.workforce_training.insert(
                c,
                WorkforceTraining { months_remaining: (t.months_remaining - 1) as u8, ..t },
            ),
            ..v
        }
    } else {
        WorldView {
            cohorts: v.cohorts.insert(c, HouseholdCohort { education: t.target_education, ..v.cohorts[c] }),
            workforce_training: v.workforce_training.remove(c),
            events: v.events.push(
                crate::event::EventEnvelope {
                    date: v.date,
                    event: crate::event::DomainEvent::WorkforceTrainingCompleted {
                        cohort: CohortId(c),
                        previous_education: t.previous_education,
                        new_education: t.target_education,
                    },
                },
            ),
            ..v
        }
    }
}

/// The courses of the cohorts `ks`, one month on, in turn.
pub open spec fn training_months(w: WorldView, ks: Seq<u32>) -> WorldView
    decreases ks.len(),
{
    if ks.len() == 0 {
        w
    } else {
        training_month(training_months(w, ks.drop_last()), ks.last())
    }
}

/// Once a prefix of the cohorts stalls, every longer prefix stalls on the same cohort.
proof fn lemma_stall_sticks(w: WorldView, ks: Seq<u32>, k: int, n: int)
    requires
        0 <= k <= n <= ks.len(),
        stalled_training(w, ks.take(k)) is Some,
    ensures
        stalled_training(w, ks.take(n)) == stalled_training(w, ks.take(k)),
    decreases n - k,
{
    if k < n {
        lemma_stall_sticks(w, ks, k, n - 1);
        assert(ks.take(n).drop_last() =~= ks.take(n - 1));
    }
}

/// Where no prefix stalls, every ending course among the first `n` has a registered cohort.
proof fn lemma_no_stall(w: WorldView, ks: Seq<u32>, n: int, j: int)
    requires
        0 <= j < n <= ks.len(),
        stalled_training(w, ks.take(n)) is None,
    ensures
        training_ends(w.workforce_training[ks[j]]) ==> w.cohorts.contains_key(ks[j]),
    decreases n,
{
    assert(ks.take(n).drop_last() =~= ks.take(n - 1));
    if j < n - 1 {
        lemma_no_stall(w, ks, n - 1, j);
    }
}

/// Whether registering `a` in `w` keeps the firm's and the cohort's worker counts in `u64`.
pub open spec fn agreement_fits(w: WorldView, a: EmploymentAgreement) -> bool {
    agreement_admissible(w, a) ==> {
        let ks = pair_key_order(w.employment_agreements);
        &&& firm_allocated(w.employment_agreements, ks, a.firm) + a.workers <= u64::MAX
        &&& cohort_allocated(w.employment_agreements, ks, a.cohort) + a.workers <= u64::MAX
    }
}

impl World {
    /// The workers a firm's active agreements hold.
    fn firm_staffed_of(&self, firm: FirmId) -> (r: u128)
        ensures
            r as int == firm_staffed(self@.employment_agreements, pair_key_order(self@.employment_agreements), firm),
    {
        let ks = pair_keys_in_order(&self.employment_agreements);
        let ghost m = self@.employment_agreements;
        let mut total: u128 = 0;
        let mut i: usize = 0;
        while i < ks.len()
            invariant
                m == self@.employment_agreements,
                ks@ == pair_key_order(m),
                forall|j: int| 0 <= j < ks@.len() ==> m.contains_key(#[trigger] ks@[j]),
                i <= ks.len(),
                total as int == firm_staffed(m, ks@.take(i as int), firm),
                total <= i * 0xffff_ffff_ffff_ffffu128,
            decreases ks.len() - i,
        {
            let a = self.employment_agreements.get(&ks[i]).unwrap();
            proof {
                assert(ks@.take(i + 1).drop_last() =~= ks@.take(i as int));
            }
            if a.firm == firm && a.active {
                total = total + a.workers as u128;
            }
            i = i + 1;
        }
        proof {
            assert(ks@.take(ks@.len() as int) =~= ks@);
        }
        total
    }

    /// The open positions of a firm (see `labor_vacancy`).
    pub(crate) fn labor_vacancy_of(&self, firm: FirmId) -> (r: Result<u64, WorldError>)
        ensures
            match labor_vacancy(self@, firm) {
                Err(e) => r == Err::<u64, WorldError>(e),
                Ok(v) => r matches Ok(x) && x as int == v,
            },
    {
        let f = match self.firms.get(&firm.get()) {
            Some(f) => f,
            None => {
                return Err(WorldError::UnknownFirm(firm));
            },
        };
        let recipe = match self.production_recipes.get(&f.recipe().get()) {
            Some(r) => r,
            None => {
                return Err(WorldError::UnknownRecipe(f.recipe()));
            },
        };
        let target: u64 = match self.firm_production_targets.get(&firm.get()) {
            Some(t) => *t,
            None => f.capacity_batches(),
        };
        let labor: u64 = recipe.labor_milli_worker_months();
        proof {
            let t = target as int;
            let l = labor as int;
            assert(0 <= t * l <= 0xffff_ffff_ffff_ffff * 0xffff_ffff_ffff_ffff) by (nonlinear_arith)
                requires
                    0 <= t <= 0xffff_ffff_ffff_ffff,
                    0 <= l <= 0xffff_ffff_ffff_ffff,
            ;
        }
        let need: u128 = target as u128 * labor as u128;
        if need > u64::MAX as u128 {
            return Err(WorldError::ArithmeticOverflow("labor vacancy requirement"));
        }
        let batches: u128 = (need + 999) / 1000;
        let required: u128 = if batches < f.workers() as u128 {
            batches
        } else {
            f.workers() as u128
        };
        let staffed = self.firm_staffed_of(firm);
        if required > staffed {
            Ok((required - staffed) as u64)
        } else {
            Ok(0)
        }
    }

    /// The wage adjustment for a firm's qualified-labor market (see `skill_adjustment`).
    fn skill_adjustment_of(&self, firm: u32) -> (r: i16)
        requires
            self@.firms.contains_key(firm),
        ensures
            r as int == skill_adjustment(self@, firm),
    {
        let f = self.firms.get(&firm).unwrap();
        let minimum = match self.recipe_minimum_education.get(&f.recipe().get()) {
            Some(m) => *m,
            None => {
                return 0;
            },
        };
        let key = (f.region().get(), crate::cohort::education_rank_of(minimum));
        let row = match self.regional_skill_labor_market.get(&key) {
            Some(row) => *row,
            None => {
                return 0;
            },
        };
        if row.vacancy_pressure_months >= 3 {
            let steps: u8 = if row.vacancy_pressure_months / 3 < 4 {
                row.vacancy_pressure_months / 3
            } else {
                4
            };
            steps as i16 * 500
        } else if row.unemployment_pressure_months >= 3 {
            let steps: u8 = if row.unemployment_pressure_months / 3 < 4 {
                row.unemployment_pressure_months / 3
            } else {
                4
            };
            -(steps as i16 * 250)
        } else {
            0
        }
    }

    /// A firm's wage bid for a cohort's worker (see `competitive_bid`).
    pub(crate) fn competitive_bid_of(&self, firm: u32, cohort: u32) -> (r: Result<(Money, i16), WorldError>)
        requires
            self@.firms.contains_key(firm),
            self@.cohorts.contains_key(cohort),
        ensures
            match competitive_bid(self@, firm, cohort) {
                Err(e) => r == Err::<(Money, i16), WorldError>(e),
                Ok((wage, adjustment)) => r matches Ok((m, a)) && m@ == wage && a == adjustment,
            },
    {
        let f = self.firms.get(&firm).unwrap();
        let target: u64 = match self.firm_production_targets.get(&firm) {
            Some(t) => *t,
            None => f.capacity_batches(),
        };
        let capacity: u64 = if f.capacity_batches() > 1 {
            f.capacity_batches()
        } else {
            1
        };
        let scaled: u64 = if target as u128 * 1_500 > u64::MAX as u128 {
            u64::MAX
        } else {
            target * 1_500
        };
        let urgency: u64 = 500u64.saturating_add(scaled / capacity);
        let adjustment = self.skill_adjustment_of(firm);
        let c = *self.cohorts.get(&cohort).unwrap();
        let people: u64 = if c.people.people() > 1 {
            c.people.people()
        } else {
            1
        };
        if people > i64::MAX as u64 {
            return Err(WorldError::ArithmeticOverflow("labor bid population"));
        }
        let base: i64 = c.annual_income.minor_units() / (people as i64) / 12;
        let lifted: u64 = 10_000u64.saturating_add(urgency);
        let multiplier: i128 = lifted as i128 + adjustment as i128;
        let floor_base: i64 = if base > 1 {
            base
        } else {
            1
        };
        proof {
            assert(base <= 0x0fff_ffff_ffff_ffff);
            assert(-1000 <= adjustment <= 2000);
            let b = floor_base as int;
            let mm = multiplier as int;
            assert(1 <= b * mm <= 0x1000_0000_0000_0000 * 0x2_0000_0000_0000_0000) by (nonlinear_arith)
                requires
                    1 <= b <= 0x1000_0000_0000_0000,
                    1 <= mm <= 0x2_0000_0000_0000_0000,
            ;
        }
        let numerator: i128 = floor_base as i128 * multiplier;
        let wage: i128 = (numerator + 9_999) / 10_000;
        if wage > i64::MAX as i128 {
            return Err(WorldError::ArithmeticOverflow("competitive labor bid"));
        }
        Ok((Money::from_minor_units(wage as i64), adjustment))
    }

    /// The workers a cohort's active agreements hold.
    fn cohort_staffed_of(&self, cohort: CohortId) -> (r: u128)
        ensures
            r as int == cohort_staffed(self@.employment_agreements, pair_key_order(self@.employment_agreements), cohort),
    {
        let ks = pair_keys_in_order(&self.employment_agreements);
        let ghost m = self@.employment_agreements;
        let mut total: u128 = 0;
        let mut i: usize = 0;
        while i < ks.len()
            invariant
                m == self@.employment_agreements,
                ks@ == pair_key_order(m),
                forall|j: int| 0 <= j < ks@.len() ==> m.contains_key(#[trigger] ks@[j]),
                i <= ks.len(),
                total as int == cohort_staffed(m, ks@.take(i as int), cohort),
                total <= i * 0xffff_ffff_ffff_ffffu128,
            decreases ks.len() - i,
        {
            let a = self.employment_agreements.get(&ks[i]).unwrap();
            proof {
                assert(ks@.take(i + 1).drop_last() =~= ks@.take(i as int));
            }
            if a.cohort == cohort && a.active {
                total = total + a.workers as u128;
            }
            i = i + 1;
        }
        proof {
            assert(ks@.take(ks@.len() as int) =~= ks@);
        }
        total
    }

    /// The people of a cohort that no active agreement employs (see `available_workers`).
    pub(crate) fn available_workers_of(&self, cohort: u32) -> (r: u64)
        ensures
            r as int == available_workers(self@, cohort),
    {
        let people: u64 = match self.cohorts.get(&cohort) {
            Some(c) => c.people.people(),
            None => {
                return 0;
            },
        };
        let staffed = self.cohort_staffed_of(CohortId(cohort));
        if people as u128 > staffed {
            (people as u128 - staffed) as u64
        } else {
            0
        }
    }

    /// Whether a cohort has the skill a recipe requires (see `has_recipe_skill`).
    pub(crate) fn has_recipe_skill_of(&self, cohort: u32, recipe: u32) -> (r: bool)
        ensures
            r == has_recipe_skill(self@, cohort, recipe),
    {
        match self.recipe_required_skill.get(&recipe) {
            None => true,
            Some(skill) => match self.cohort_skills.get(&(cohort, skill.get())) {
                Some(p) => *p > 0,
                None => false,
            },
        }
    }

    /// Hires one worker of a qualified, unallocated local cohort for a firm's vacancy at
    /// the firm's current competitive bid (see `match_error` and `match_result`); a
    /// refused match changes nothing.
    pub fn match_employment_worker(&mut self, matched: EmploymentMatch) -> (r: Result<(), WorldError>)
        requires
            match_error(old(self)@, matched) is None ==> agreement_fits(old(self)@, match_new_agreement(matched)),
        ensures
            match_error(old(self)@, matched) matches Some(e) ==> r == Err::<(), WorldError>(e)
                && final(self)@ == old(self)@,
            match_error(old(self)@, matched) is None ==> match match_result(old(self)@, matched) {
                Err(e) => r == Err::<(), WorldError>(e) && final(self)@ == old(self)@,
                Ok(w2) => r is Ok && final(self)@ == w2,
            },
    {
        if matched.wage.minor_units() <= 0 {
            return Err(WorldError::InvalidEmployment("labor match requires a funded vacancy"));
        }
        let vacancy = match self.labor_vacancy_of(matched.firm) {
            Ok(v) => v,
            Err(e) => {
                return Err(e);
            },
        };
        if vacancy == 0 {
            return Err(WorldError::InvalidEmployment("labor match requires a funded vacancy"));
        }
        let f = self.firms.get(&matched.firm.get()).unwrap();
        if f.cash().minor_units() < matched.wage.minor_units() {
            return Err(WorldError::InsufficientFirmCash(matched.firm));
        }
        let recipe = f.recipe().get();
        let region = f.region();
        let minimum = match self.recipe_minimum_education.get(&recipe) {
            Some(m) => *m,
            None => {
                return Err(
                    WorldError::InvalidEmployment(
                        "labor match requires an explicitly configured recipe labor profile",
                    ),
                );
            },
        };
        let cohort = match self.cohorts.get(&matched.cohort.get()) {
            Some(c) => *c,
            None => {
                return Err(WorldError::UnknownCohort(matched.cohort));
            },
        };
        if cohort.region != region || cohort.employment != EmploymentStatus::Unemployed
            || crate::cohort::education_rank_of(cohort.education) < crate::cohort::education_rank_of(minimum)
            || !self.has_recipe_skill_of(matched.cohort.get(), recipe) || matched.minimum_education != minimum
            || self.available_workers_of(matched.cohort.get()) == 0 {
            return Err(WorldError::InvalidEmployment("labor match requires a qualified unallocated local worker"));
        }
        let (wage, adjustment) = match self.competitive_bid_of(matched.firm.get(), matched.cohort.get()) {
            Ok(b) => b,
            Err(e) => {
                return Err(e);
            },
        };
        if matched.wage.minor_units() != wage.minor_units() || matched.labor_market_adjustment_basis_points
            != adjustment {
            return Err(
                WorldError::InvalidEmployment("labor match wage must equal the current observed competitive bid"),
            );
        }
        let key = (matched.firm.get(), matched.cohort.get());
        match self.employment_agreements.get(&key) {
            Some(a) => {
                let mut joined = *a;
                joined.set_workers(a.workers.saturating_add(1));
                joined.monthly_wage_per_worker = matched.wage;
                self.employment_agreements.insert(key, joined);
            },
            None => {
                let fresh = EmploymentAgreement {
                    firm: matched.firm,
                    cohort: matched.cohort,
                    workers: 1,
                    monthly_wage_per_worker: matched.wage,
                    arrears: Money::from_minor_units(0),
                    active: true,
                    months_at_current_firm: 0,
                };
                proof {
                    assert(fresh == match_new_agreement(matched));
                }
                match self.register_employment_agreement(fresh) {
                    Ok(()) => {},
                    Err(e) => {
                        return Err(e);
                    },
                }
            },
        }
        self.events.append(
            self.date,
            crate::event::DomainEvent::EmploymentMatched {
                firm: matched.firm,
                cohort: matched.cohort,
                workers: 1,
                wage: matched.wage,
                minimum_education: matched.minimum_education,
                labor_market_adjustment_basis_points: matched.labor_market_adjustment_basis_points,
            },
        );
        Ok(())
    }

    /// Moves one worker of a cohort from its agreement with one firm to a materially better
    /// funded offer of another firm of its region (see `switch_error` and `switch_result`);
    /// a refused switch changes nothing.
    pub fn switch_employment_worker(&mut self, switched: EmploymentSwitch) -> (r: Result<(), WorldError>)
        requires
            switch_error(old(self)@, switched) is None ==> agreement_fits(
                WorldView { employment_agreements: switch_released(old(self)@, switched), ..old(self)@ },
                switch_new_agreement(switched),
            ),
        ensures
            switch_error(old(self)@, switched) matches Some(e) ==> r == Err::<(), WorldError>(e)
                && final(self)@ == old(self)@,
            switch_error(old(self)@, switched) is None ==> match switch_result(old(self)@, switched) {
                Err(e) => r == Err::<(), WorldError>(e) && final(self)@ == old(self)@,
                Ok(w2) => r is Ok && final(self)@ == w2,
            },
    {
        let distinct = "employment switch requires a distinct firm with a vacancy";
        if switched.from_firm == switched.to_firm {
            return Err(WorldError::InvalidEmployment(distinct));
        }
        let vacancy = match self.labor_vacancy_of(switched.to_firm) {
            Ok(v) => v,
            Err(e) => {
                return Err(e);
            },
        };
        if vacancy == 0 {
            return Err(WorldError::InvalidEmployment(distinct));
        }
        let source_region = match self.firms.get(&switched.from_firm.get()) {
            Some(f) => f.region(),
            None => {
                return Err(WorldError::UnknownFirm(switched.from_firm));
            },
        };
        let target = self.firms.get(&switched.to_firm.get()).unwrap();
        let target_region = target.region();
        let target_cash = target.cash();
        let minimum = match self.recipe_minimum_education.get(&target.recipe().get()) {
            Some(m) => *m,
            None => {
                return Err(
                    WorldError::InvalidEmployment(
                        "employment switch requires an explicitly configured target recipe",
                    ),
                );
            },
        };
        let cohort = match self.cohorts.get(&switched.cohort.get()) {
            Some(c) => *c,
            None => {
                return Err(WorldError::UnknownCohort(switched.cohort));
            },
        };
        let key = (switched.from_firm.get(), switched.cohort.get());
        let source = match self.employment_agreements.get(&key) {
            Some(a) => *a,
            None => {
                return Err(WorldError::InvalidEmployment("employment switch source agreement is missing"));
            },
        };
        let (wage, adjustment) = match self.competitive_bid_of(switched.to_firm.get(), switched.cohort.get()) {
            Ok(b) => b,
            Err(e) => {
                return Err(e);
            },
        };
        if source_region != target_region || cohort.region != target_region
            || crate::cohort::education_rank_of(cohort.education) < crate::cohort::education_rank_of(minimum)
            || switched.minimum_education != minimum || !source.active || source.workers == 0
            || source.months_at_current_firm < 3
            || source.monthly_wage_per_worker != switched.previous_wage
            || switched.offered_wage.minor_units() != wage.minor_units()
            || switched.labor_market_adjustment_basis_points != adjustment
            || target_cash.minor_units() < switched.offered_wage.minor_units()
            || (switched.offered_wage.minor_units() as i128) * 100 < (switched.previous_wage.minor_units() as i128)
            * 110 {
            return Err(WorldError::InvalidEmployment(unqualified_switch_message()));
        }
        let ghost w0 = self@;
        let released = EmploymentAgreement { workers: source.workers - 1, active: source.workers - 1 > 0, ..source };
        self.employment_agreements.insert(key, released);
        let target_key = (switched.to_firm.get(), switched.cohort.get());
        match self.employment_agreements.get(&target_key) {
            Some(t) => {
                let t = *t;
                let joined = EmploymentAgreement {
                    workers: t.workers.saturating_add(1),
                    active: true,
                    months_at_current_firm: if t.workers == 0 {
                        0
                    } else {
                        t.months_at_current_firm
                    },
                    monthly_wage_per_worker: switched.offered_wage,
                    ..t
                };
                self.employment_agreements.insert(target_key, joined);
            },
            None => {
                let fresh = EmploymentAgreement {
                    firm: switched.to_firm,
                    cohort: switched.cohort,
                    workers: 1,
                    monthly_wage_per_worker: switched.offered_wage,
                    arrears: Money::from_minor_units(0),
                    active: true,
                    months_at_current_firm: 0,
                };
                proof {
                    assert(self@ == (WorldView { employment_agreements: switch_released(w0, switched), ..w0 }));
                    assert(fresh == switch_new_agreement(switched));
                }
                match self.register_employment_agreement(fresh) {
                    Ok(()) => {},
                    Err(e) => {
                        self.employment_agreements.insert(key, source);
                        proof {
                            assert(self@.employment_agreements =~= w0.employment_agreements);
                        }
                        return Err(e);
                    },
                }
            },
        }
        self.events.append(
            self.date,
            crate::event::DomainEvent::EmploymentSwitched {
                from_firm: switched.from_firm,
                to_firm: switched.to_firm,
                cohort: switched.cohort,
                previous_wage: switched.previous_wage,
                offered_wage: switched.offered_wage,
                minimum_education: switched.minimum_education,
                labor_market_adjustment_basis_points: switched.labor_market_adjustment_basis_points,
            },
        );
        Ok(())
    }
}

/// The message of a refused switch of a worker that does not qualify or is not offered enough.
fn unqualified_switch_message() -> (r: &'static str)
    ensures
        r == unqualified_switch(),
{
    "employment switch requires a qualified worker and a current 10% better funded bid"
}

/// The sum of `f` over the agreements `ks` of `m`.
pub open spec fn agreement_sum(
    m: Map<(u32, u32), EmploymentAgreement>,
    ks: Seq<(u32, u32)>,
    f: spec_fn(EmploymentAgreement) -> int,
) -> int
    decreases ks.len(),
{
    if ks.len() == 0 {
        0
    } else {
        agreement_sum(m, ks.drop_last(), f) + f(m[ks.last()])
    }
}

/// The workers an agreement draws from `cohort`.
pub open spec fn cohort_share(cohort: CohortId) -> spec_fn(EmploymentAgreement) -> int {
    |a: EmploymentAgreement| if a.cohort == cohort { a.workers as int } else { 0int }
}

/// The workers an agreement assigns to `firm`.
pub open spec fn firm_share(firm: FirmId) -> spec_fn(EmploymentAgreement) -> int {
    |a: EmploymentAgreement| if a.firm == firm { a.workers as int } else { 0int }
}

proof fn lemma_allocated_are_sums(m: Map<(u32, u32), EmploymentAgreement>, ks: Seq<(u32, u32)>, c: CohortId, f: FirmId)
    ensures
        cohort_allocated(m, ks, c) == agreement_sum(m, ks, cohort_share(c)),
        firm_allocated(m, ks, f) == agreement_sum(m, ks, firm_share(f)),
    decreases ks.len(),
{
    if ks.len() > 0 {
        lemma_allocated_are_sums(m, ks.drop_last(), c, f);
    }
}

/// Sums agree over keys where the maps agree.
proof fn lemma_agreement_sum_agree(
    m1: Map<(u32, u32), EmploymentAgreement>,
    m2: Map<(u32, u32), EmploymentAgreement>,
    ks: Seq<(u32, u32)>,
    f: spec_fn(EmploymentAgreement) -> int,
)
    requires
        forall|i: int| 0 <= i < ks.len() ==> m1[#[trigger] ks[i]] == m2[ks[i]],
    ensures
        agreement_sum(m1, ks, f) == agreement_sum(m2, ks, f),
    decreases ks.len(),
{
    if ks.len() > 0 {
        assert forall|i: int| 0 <= i < ks.drop_last().len() implies m1[#[trigger] ks.drop_last()[i]]
            == m2[ks.drop_last()[i]] by {
            assert(ks.drop_last()[i] == ks[i]);
        }
        assert(m1[ks.last()] == m2[ks[ks.len() - 1]]);
        lemma_agreement_sum_agree(m1, m2, ks.drop_last(), f);
    }
}

/// Changing an existing agreement changes a sum by the difference.
proof fn lemma_agreement_sum_update(
    m: Map<(u32, u32), EmploymentAgreement>,
    ks: Seq<(u32, u32)>,
    k: (u32, u32),
    v: EmploymentAgreement,
    f: spec_fn(EmploymentAgreement) -> int,
)
    requires
        crate::ordered::pairs_increasing(ks),
        ks.contains(k),
    ensures
        agreement_sum(m.insert(k, v), ks, f) == agreement_sum(m, ks, f) - f(m[k]) + f(v),
    decreases ks.len(),
{
    let init = ks.drop_last();
    assert forall|i: int| 0 <= i < init.len() && init[i] != k implies m.insert(k, v)[#[trigger] init[i]]
        == m[init[i]] by {}
    if ks.last() == k {
        assert forall|i: int| 0 <= i < init.len() implies m.insert(k, v)[#[trigger] init[i]] == m[init[i]] by {
            assert(init[i] == ks[i]);
            assert(crate::ordered::pair_lt(ks[i], ks[ks.len() - 1]));
        }
        lemma_agreement_sum_agree(m.insert(k, v), m, init, f);
    } else {
        assert(init.contains(k)) by {
            let j = choose|j: int| 0 <= j < ks.len() && ks[j] == k;
            assert(j != ks.len() - 1);
            assert(init[j] == k);
        }
        lemma_agreement_sum_update(m, init, k, v, f);
    }
}

/// The last key of a key order is the largest key.
proof fn lemma_pair_last_is_max<V>(m: Map<(u32, u32), V>, ks: Seq<(u32, u32)>, x: (u32, u32))
    requires
        is_pair_key_order(m, ks),
        m.contains_key(x),
    ensures
        ks.len() > 0,
        x == ks.last() || crate::ordered::pair_lt(x, ks.last()),
{
    assert(ks.to_set().contains(x));
    let j = choose|j: int| 0 <= j < ks.len() && ks[j] == x;
    if j < ks.len() - 1 {
        assert(crate::ordered::pair_lt(ks[j], ks[ks.len() - 1]));
    }
}

/// Without its last key, a key order is the key order of the map without that key.
proof fn lemma_pair_drop_last<V>(m: Map<(u32, u32), V>, ks: Seq<(u32, u32)>)
    requires
        is_pair_key_order(m, ks),
        ks.len() > 0,
    ensures
        is_pair_key_order(m.remove(ks.last()), ks.drop_last()),
{
    let init = ks.drop_last();
    let l = ks.last();
    assert forall|x: (u32, u32)| init.to_set().contains(x) <==> m.remove(l).dom().contains(x) by {
        if init.to_set().contains(x) {
            let j = choose|j: int| 0 <= j < init.len() && init[j] == x;
            assert(ks[j] == x);
            assert(ks.to_set().contains(x));
            assert(crate::ordered::pair_lt(ks[j], ks[ks.len() - 1]));
        }
        if m.remove(l).dom().contains(x) {
            assert(ks.to_set().contains(x));
            let j = choose|j: int| 0 <= j < ks.len() && ks[j] == x;
            assert(j != ks.len() - 1);
            assert(init[j] == x);
        }
    }
    assert(init.to_set() =~= m.remove(l).dom());
}

/// Adding a new agreement adds its share to a sum over the key order.
proof fn lemma_agreement_sum_insert(
    m: Map<(u32, u32), EmploymentAgreement>,
    ks: Seq<(u32, u32)>,
    ks2: Seq<(u32, u32)>,
    k: (u32, u32),
    v: EmploymentAgreement,
    f: spec_fn(EmploymentAgreement) -> int,
)
    requires
        is_pair_key_order(m, ks),
        is_pair_key_order(m.insert(k, v), ks2),
        !m.contains_key(k),
    ensures
        agreement_sum(m.insert(k, v), ks2, f) == agreement_sum(m, ks, f) + f(v),
    decreases ks2.len(),
{
    let m2 = m.insert(k, v);
    lemma_pair_last_is_max(m2, ks2, k);
    let l = ks2.last();
    lemma_pair_drop_last(m2, ks2);
    if l == k {
        assert(m2.remove(k) =~= m);
        crate::ordered::lemma_pairs_increasing_unique(ks2.drop_last(), ks);
        assert(!ks.contains(k)) by {
            if ks.contains(k) {
                let j = choose|j: int| 0 <= j < ks.len() && ks[j] == k;
                assert(ks.to_set().contains(k));
            }
        }
        assert forall|i: int| 0 <= i < ks.len() implies m2[#[trigger] ks[i]] == m[ks[i]] by {
            assert(ks.to_set().contains(ks[i]));
        }
        lemma_agreement_sum_agree(m2, m, ks, f);
    } else {
        assert(m2.contains_key(l)) by {
            assert(ks2.to_set().contains(ks2[ks2.len() - 1]));
        }
        assert(m.contains_key(l));
        lemma_pair_last_is_max(m, ks, l);
        lemma_pair_last_is_max(m2, ks2, ks.last());
        assert(ks.last() == l);
        lemma_pair_drop_last(m, ks);
        let mr = m.remove(l);
        assert(m2.remove(l) =~= mr.insert(k, v));
        lemma_agreement_sum_insert(mr, ks.drop_last(), ks2.drop_last(), k, v, f);
        assert forall|i: int| 0 <= i < ks2.drop_last().len() implies m2[#[trigger] ks2.drop_last()[i]] == mr.insert(
            k,
            v,
        )[ks2.drop_last()[i]] by {
            assert(ks2.drop_last().to_set().contains(ks2.drop_last()[i]));
        }
        lemma_agreement_sum_agree(m2, mr.insert(k, v), ks2.drop_last(), f);
        assert forall|i: int| 0 <= i < ks.drop_last().len() implies m[#[trigger] ks.drop_last()[i]] == mr[
            ks.drop_last()[i]] by {
            assert(ks.drop_last().to_set().contains(ks.drop_last()[i]));
        }
        lemma_agreement_sum_agree(m, mr, ks.drop_last(), f);
    }
}

/// Whether every agreement is filed under its own firm and cohort.
pub open spec fn agreements_keyed(m: Map<(u32, u32), EmploymentAgreement>) -> bool {
    forall|k: (u32, u32)| #[trigger] m.contains_key(k) ==> k == (m[k].firm@, m[k].cohort@)
}

/// A switch moves exactly one worker: the cohort keeps as many employed workers as before,
/// the source firm holds one fewer and the target firm one more (for agreements filed
/// under their own firm and cohort, with key orders, and a target agreement that can
/// still grow).
pub proof fn lemma_switch_moves_one_worker(w: WorldView, s: EmploymentSwitch)
    requires
        is_pair_key_order(w.employment_agreements, pair_key_order(w.employment_agreements)),
        agreements_keyed(w.employment_agreements),
        switch_error(w, s) is None,
        switch_result(w, s) is Ok,
        is_pair_key_order(
            switch_result(w, s)->Ok_0.employment_agreements,
            pair_key_order(switch_result(w, s)->Ok_0.employment_agreements),
        ),
        w.employment_agreements.contains_key((s.to_firm@, s.cohort@)) ==> w.employment_agreements[(
            s.to_firm@,
            s.cohort@,
        )].workers < u64::MAX,
    ensures
        ({
            let m = w.employment_agreements;
            let m2 = switch_result(w, s)->Ok_0.employment_agreements;
            &&& cohort_allocated(m2, pair_key_order(m2), s.cohort) == cohort_allocated(m, pair_key_order(m), s.cohort)
            &&& firm_allocated(m2, pair_key_order(m2), s.from_firm) == firm_allocated(m, pair_key_order(m), s.from_firm)
                - 1
            &&& firm_allocated(m2, pair_key_order(m2), s.to_firm) == firm_allocated(m, pair_key_order(m), s.to_firm)
                + 1
        }),
{
    let m = w.employment_agreements;
    let ks = pair_key_order(m);
    let src = (s.from_firm@, s.cohort@);
    let tgt = (s.to_firm@, s.cohort@);
    let released = switch_released(w, s);
    let m2 = switch_result(w, s)->Ok_0.employment_agreements;
    let ks2 = pair_key_order(m2);
    assert(released.dom() =~= m.dom());
    crate::ordered::lemma_pair_key_order_same_dom(m, released);
    assert(ks.to_set().contains(src));
    assert(ks.contains(src));
    let fc = cohort_share(s.cohort);
    let ff = firm_share(s.from_firm);
    let ft = firm_share(s.to_firm);
    let a = m[src];
    assert(a.workers >= 1);
    assert(a.firm == s.from_firm && a.cohort == s.cohort);
    assert(fc(released[src]) == fc(a) - 1);
    assert(ff(released[src]) == ff(a) - 1);
    assert(ft(released[src]) == ft(a));
    lemma_agreement_sum_update(m, ks, src, released[src], fc);
    lemma_agreement_sum_update(m, ks, src, released[src], ff);
    lemma_agreement_sum_update(m, ks, src, released[src], ft);
    lemma_allocated_are_sums(m, ks, s.cohort, s.from_firm);
    lemma_allocated_are_sums(m, ks, s.cohort, s.to_firm);
    lemma_allocated_are_sums(m2, ks2, s.cohort, s.from_firm);
    lemma_allocated_are_sums(m2, ks2, s.cohort, s.to_firm);
    if released.contains_key(tgt) {
        assert(m2.dom() =~= released.dom());
        crate::ordered::lemma_pair_key_order_same_dom(released, m2);
        assert(ks.contains(tgt)) by {
            assert(ks.to_set().contains(tgt));
        }
        lemma_agreement_sum_update(released, ks, tgt, m2[tgt], fc);
        lemma_agreement_sum_update(released, ks, tgt, m2[tgt], ff);
        lemma_agreement_sum_update(released, ks, tgt, m2[tgt], ft);
        assert(m2 == released.insert(tgt, m2[tgt]));
        let t = released[tgt];
        assert(t == m[tgt]);
        assert(t.firm == s.to_firm && t.cohort == s.cohort);
        assert(m2[tgt].workers == t.workers + 1);
        assert(fc(m2[tgt]) == fc(t) + 1);
        assert(ff(m2[tgt]) == ff(t));
        assert(ft(m2[tgt]) == ft(t) + 1);
    } else {
        assert(is_pair_key_order(released, ks));
        assert(m2 == released.insert(tgt, switch_new_agreement(s)));
        assert(fc(switch_new_agreement(s)) == 1);
        assert(ff(switch_new_agreement(s)) == 0);
        assert(ft(switch_new_agreement(s)) == 1);
        lemma_agreement_sum_insert(released, ks, ks2, tgt, switch_new_agreement(s), fc);
        lemma_agreement_sum_insert(released, ks, ks2, tgt, switch_new_agreement(s), ff);
        lemma_agreement_sum_insert(released, ks, ks2, tgt, switch_new_agreement(s), ft);
    }
}

/// Moving the courses of the first `k` cohorts of the key order on by a month keeps the
/// registered cohorts with their people and households, and leaves the later courses
/// as they were.
proof fn lemma_training_prefix(w: WorldView, ks: Seq<u32>, k: int)
    requires
        is_key_order(w.workforce_training, ks),
        stalled_training(w, ks) is None,
        0 <= k <= ks.len(),
    ensures
        ({
            let v = training_months(w, ks.take(k));
            &&& v.cohorts.dom() == w.cohorts.dom()
            &&& forall|c: u32| #[trigger]
                w.cohorts.contains_key(c) ==> v.cohorts[c].people == w.cohorts[c].people
                    && v.cohorts[c].households == w.cohorts[c].households && v.cohorts[c].region == w.cohorts[c].region
            &&& forall|j: int|
                k <= j < ks.len() ==> v.workforce_training.contains_key(#[trigger] ks[j])
                    && v.workforce_training[ks[j]] == w.workforce_training[ks[j]]
        }),
    decreases k,
{
    if k == 0 {
        assert(ks.take(0) =~= Seq::<u32>::empty());
        assert forall|j: int| 0 <= j < ks.len() implies w.workforce_training.contains_key(#[trigger] ks[j]) by {
            assert(ks.to_set().contains(ks[j]));
        }
    } else {
        lemma_training_prefix(w, ks, k - 1);
        assert(ks.take(k).drop_last() =~= ks.take(k - 1));
        assert(ks.take(ks.len() as int) =~= ks);
        lemma_no_stall(w, ks, ks.len() as int, k - 1);
        let v = training_months(w, ks.take(k - 1));
        let c = ks[k - 1];
        assert(ks.take(k).last() == c);
        assert(training_months(w, ks.take(k)) == training_month(v, c));
        let v2 = training_month(v, c);
        assert(v2.cohorts.dom() =~= w.cohorts.dom());
        assert forall|j: int| k <= j < ks.len() implies v2.workforce_training.contains_key(#[trigger] ks[j])
            && v2.workforce_training[ks[j]] == w.workforce_training[ks[j]] by {
            assert(ks[j] != c);
        }
    }
}

/// Training changes no cohort's people or households, and registers or removes no
/// cohort: a month of every course keeps the cohort ledger's head counts.
pub proof fn lemma_training_keeps_people(w: WorldView)
    requires
        is_key_order(w.workforce_training, key_order(w.workforce_training)),
        stalled_training(w, key_order(w.workforce_training)) is None,
    ensures
        ({
            let v = training_months(w, key_order(w.workforce_training));
            &&& v.cohorts.dom() == w.cohorts.dom()
            &&& forall|c: u32| #[trigger]
                w.cohorts.contains_key(c) ==> v.cohorts[c].people == w.cohorts[c].people
                    && v.cohorts[c].households == w.cohorts[c].households && v.cohorts[c].region == w.cohorts[c].region
        }),
{
    let ks = key_order(w.workforce_training);
    lemma_training_prefix(w, ks, ks.len() as int);
    assert(ks.take(ks.len() as int) =~= ks);
}

/// A match adds exactly one worker to the firm's allocation and one to the cohort's (for
/// agreements filed under their own firm and cohort, with key orders, and an existing
/// agreement between them that can still grow).
pub proof fn lemma_match_hires_one_worker(w: WorldView, m: EmploymentMatch)
    requires
        is_pair_key_order(w.employment_agreements, pair_key_order(w.employment_agreements)),
        agreements_keyed(w.employment_agreements),
        match_error(w, m) is None,
        match_result(w, m) is Ok,
        is_pair_key_order(
            match_result(w, m)->Ok_0.employment_agreements,
            pair_key_order(match_result(w, m)->Ok_0.employment_agreements),
        ),
        w.employment_agreements.contains_key((m.firm@, m.cohort@)) ==> w.employment_agreements[(
            m.firm@,
            m.cohort@,
        )].workers < u64::MAX,
    ensures
        ({
            let a = w.employment_agreements;
            let a2 = match_result(w, m)->Ok_0.employment_agreements;
            &&& cohort_allocated(a2, pair_key_order(a2), m.cohort) == cohort_allocated(a, pair_key_order(a), m.cohort)
                + 1
            &&& firm_allocated(a2, pair_key_order(a2), m.firm) == firm_allocated(a, pair_key_order(a), m.firm) + 1
        }),
{
    let a = w.employment_agreements;
    let ks = pair_key_order(a);
    let key = (m.firm@, m.cohort@);
    let a2 = match_result(w, m)->Ok_0.employment_agreements;
    let ks2 = pair_key_order(a2);
    let fc = cohort_share(m.cohort);
    let ff = firm_share(m.firm);
    lemma_allocated_are_sums(a, ks, m.cohort, m.firm);
    lemma_allocated_are_sums(a2, ks2, m.cohort, m.firm);
    if a.contains_key(key) {
        assert(a2.dom() =~= a.dom());
        crate::ordered::lemma_pair_key_order_same_dom(a, a2);
        assert(ks.contains(key)) by {
            assert(ks.to_set().contains(key));
        }
        let before = a[key];
        assert(before.firm == m.firm && before.cohort == m.cohort);
        assert(fc(a2[key]) == fc(before) + 1);
        assert(ff(a2[key]) == ff(before) + 1);
        assert(a2 == a.insert(key, a2[key]));
        lemma_agreement_sum_update(a, ks, key, a2[key], fc);
        lemma_agreement_sum_update(a, ks, key, a2[key], ff);
    } else {
        assert(a2 == a.insert(key, match_new_agreement(m)));
        assert(fc(match_new_agreement(m)) == 1);
        assert(ff(match_new_agreement(m)) == 1);
        lemma_agreement_sum_insert(a, ks, ks2, key, match_new_agreement(m), fc);
        lemma_agreement_sum_insert(a, ks, ks2, key, match_new_agreement(m), ff);
    }
}

impl World {
    /// Sets the minimum education a production recipe's workers need; rejects an unknown
    /// recipe and then changes nothing.
    pub fn set_recipe_minimum_education(&mut self, recipe: RecipeId, education: EducationLevel) -> (r: Result<
        (),
        WorldError,
    >)
        ensures
            !old(self)@.production_recipes.contains_key(recipe@) ==> r == Err::<(), WorldError>(
                WorldError::UnknownRecipe(recipe),
            ) && final(self)@ == old(self)@,
            old(self)@.production_recipes.contains_key(recipe@) ==> r is Ok && final(self)@ == (WorldView {
                recipe_minimum_education: old(self)@.recipe_minimum_education.insert(recipe@, education),
                ..old(self)@
            }),
    {
        if !self.production_recipes.contains_key(&recipe.get()) {
            return Err(WorldError::UnknownRecipe(recipe));
        }
        self.recipe_minimum_education.insert(recipe.get(), education);
        Ok(())
    }

    /// Moves every course on by a month, in cohort order (see `training_months`); where a
    /// course ends for a cohort that is not registered, it refuses with the first such
    /// cohort and changes nothing.
    pub fn progress_workforce_training(&mut self) -> (r: Result<(), WorldError>)
        ensures
            match stalled_training(old(self)@, key_order(old(self)@.workforce_training)) {
                Some(c) => r == Err::<(), WorldError>(WorldError::UnknownCohort(CohortId(c))) && final(self)@
                    == old(self)@,
                None => r is Ok && final(self)@ == training_months(old(self)@, key_order(old(self)@.workforce_training)),
            },
    {
        let ks = keys_in_order(&self.workforce_training);
        let ghost w0 = self@;
        let mut i: usize = 0;
        while i < ks.len()
            invariant
                self@ == w0,
                ks@ == key_order(w0.workforce_training),
                forall|j: int| 0 <= j < ks@.len() ==> w0.workforce_training.contains_key(#[trigger] ks@[j]),
                i <= ks.len(),
                stalled_training(w0, ks@.take(i as int)) is None,
            decreases ks.len() - i,
        {
            proof {
                assert(ks@.take(i + 1).drop_last() =~= ks@.take(i as int));
            }
            let t = *self.workforce_training.get(&ks[i]).unwrap();
            if t.months_remaining <= 1 && !self.cohorts.contains_key(&ks[i]) {
                proof {
                    lemma_stall_sticks(w0, ks@, i + 1, ks@.len() as int);
                    assert(ks@.take(ks@.len() as int) =~= ks@);
                }
                return Err(WorldError::UnknownCohort(CohortId(ks[i])));
            }
            i = i + 1;
        }
        proof {
            assert(ks@.take(ks@.len() as int) =~= ks@);
        }
        let mut i: usize = 0;
        while i < ks.len()
            invariant
                ks@ == key_order(w0.workforce_training),
                is_key_order(w0.workforce_training, ks@),
                forall|j: int| 0 <= j < ks@.len() ==> w0.workforce_training.contains_key(#[trigger] ks@[j]),
                stalled_training(w0, ks@) is None,
                i <= ks.len(),
                self@ == training_months(w0, ks@.take(i as int)),
                forall|j: int|
                    i <= j < ks@.len() ==> self@.workforce_training.contains_key(#[trigger] ks@[j])
                        && self@.workforce_training[ks@[j]] == w0.workforce_training[ks@[j]],
                forall|c: u32| w0.cohorts.contains_key(c) ==> self@.cohorts.contains_key(c),
            decreases ks.len() - i,
        {
            let c = ks[i];
            proof {
                assert(ks@.take(i + 1).drop_last() =~= ks@.take(i as int));
                assert(ks@.take(ks@.len() as int) =~= ks@);
                lemma_no_stall(w0, ks@, ks@.len() as int, i as int);
            }
            let t = *self.workforce_training.get(&c).unwrap();
            let ghost before = self@;
            if t.months_remaining > 1 {
                self.workforce_training.insert(c, WorkforceTraining { months_remaining: t.months_remaining - 1, ..t });
            } else {
                let mut cohort = *self.cohorts.get(&c).unwrap();
                cohort.education = t.target_education;
                self.cohorts.insert(c, cohort);
                self.workforce_training.remove(&c);
                self.events.append(
                    self.date,
                    crate::event::DomainEvent::WorkforceTrainingCompleted {
                        cohort: CohortId(c),
                        previous_education: t.previous_education,
                        new_education: t.target_education,
                    },
                );
            }
            proof {
                assert(self@ == training_month(before, c));
                assert forall|j: int| i + 1 <= j < ks@.len() implies self@.workforce_training.contains_key(
                    #[trigger] ks@[j],
                ) && self@.workforce_training[ks@[j]] == w0.workforce_training[ks@[j]] by {
                    assert(ks@[j] != c);
                }
            }
            i = i + 1;
        }
        proof {
            assert(ks@.take(ks@.len() as int) =~= ks@);
        }
        Ok(())
    }

    /// Sets the occupation-specific skill a production recipe's workers need; rejects an
    /// unknown recipe and then changes nothing.
    pub fn set_recipe_required_skill(&mut self, recipe: RecipeId, skill: SkillId) -> (r: Result<(), WorldError>)
        ensures
            !old(self)@.production_recipes.contains_key(recipe@) ==> r == Err::<(), WorldError>(
                WorldError::UnknownRecipe(recipe),
            ) && final(self)@ == old(self)@,
            old(self)@.production_recipes.contains_key(recipe@) ==> r is Ok && final(self)@ == (WorldView {
                recipe_required_skill: old(self)@.recipe_required_skill.insert(recipe@, skill),
                ..old(self)@
            }),
    {
        if !self.production_recipes.contains_key(&recipe.get()) {
            return Err(WorldError::UnknownRecipe(recipe));
        }
        self.recipe_required_skill.insert(recipe.get(), skill);
        Ok(())
    }

    /// Records a cohort's proficiency in a skill; rejects an unknown cohort, then a zero
    /// proficiency, and then changes nothing.
    pub fn set_cohort_skill(&mut self, cohort: CohortId, skill: SkillId, proficiency: u8) -> (r: Result<
        (),
        WorldError,
    >)
        ensures
            !old(self)@.cohorts.contains_key(cohort@) ==> r == Err::<(), WorldError>(
                WorldError::UnknownCohort(cohort),
            ) && final(self)@ == old(self)@,
            old(self)@.cohorts.contains_key(cohort@) && proficiency == 0 ==> r == Err::<(), WorldError>(
                WorldError::InvalidEmployment("cohort skill proficiency must be positive"),
            ) && final(self)@ == old(self)@,
            old(self)@.cohorts.contains_key(cohort@) && proficiency > 0 ==> r is Ok && final(self)@ == (WorldView {
                cohort_skills: old(self)@.cohort_skills.insert((cohort@, skill@), proficiency),
                ..old(self)@
            }),
    {
        if !self.cohorts.contains_key(&cohort.get()) {
            return Err(WorldError::UnknownCohort(cohort));
        }
        if proficiency == 0 {
            return Err(WorldError::InvalidEmployment("cohort skill proficiency must be positive"));
        }
        self.cohort_skills.insert((cohort.get(), skill.get()), proficiency);
        Ok(())
    }

    /// The training under way, by cohort.
    pub fn workforce_training(&self) -> (r: &BTreeMap<u32, WorkforceTraining>)
        ensures
            r@ == self@.workforce_training,
    {
        &self.workforce_training
    }

    /// The minimum education of each configured recipe.
    pub fn recipe_minimum_education(&self) -> (r: &BTreeMap<u32, EducationLevel>)
        ensures
            r@ == self@.recipe_minimum_education,
    {
        &self.recipe_minimum_education
    }

    /// The latest labor-market evidence by region.
    pub fn regional_labor_market(&self) -> (r: &BTreeMap<u32, RegionalLaborMarketObservation>)
        ensures
            r@ == self@.regional_labor_market,
    {
        &self.regional_labor_market
    }

    /// The latest qualified-labor evidence by (region, education rank).
    pub fn regional_skill_labor_market(&self) -> (r: &BTreeMap<(u32, u32), RegionalSkillLaborMarketObservation>)
        ensures
            r@ == self@.regional_skill_labor_market,
    {
        &self.regional_skill_labor_market
    }

    /// The production target of each firm that has one.
    pub fn firm_production_targets(&self) -> (r: &BTreeMap<u32, u64>)
        ensures
            r@ == self@.firm_production_targets,
    {
        &self.firm_production_targets
    }
}

} // verus!
