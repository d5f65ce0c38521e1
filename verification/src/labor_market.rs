use vstd::prelude::*;

use std::collections::BTreeMap;

use crate::cohort::{education_rank, education_rank_of, wealth_debit, EducationLevel, EmploymentStatus, HouseholdCohort};
use crate::event::{DomainEvent, EventEnvelope};
use crate::ids::{CohortId, FirmId, RegionId};
use crate::labor::{
    stalled_training, training_months, EmploymentAgreement,
    agreement_fits, available_workers, competitive_bid, has_recipe_skill, labor_vacancy, match_error, match_new_agreement,
    match_result, switch_error, switch_new_agreement, switch_released, switch_result, EmploymentMatch,
    EmploymentSwitch, RegionalLaborMarketObservation, RegionalSkillLaborMarketObservation, TrainingSponsor,
    WorkforceTraining,
};
use crate::migration::{first_free_cohort_id, household_size, migrant_cohort, people_share, remaining_cohort, share_of};
use crate::value::Population;
use crate::ordered::{pair_key_order, pair_keys_in_order};
use crate::ordered::{is_pair_key_order};
use crate::ordered::{is_key_order, key_order, keys_in_order, strictly_increasing};
use crate::pricing::tdiv;
use crate::production::ProductionInput;
use crate::value::{Money, QuantityMilli};
use crate::world::{World, WorldError, WorldView};

verus! {

broadcast use {
    vstd::std_specs::btree::group_btree_axioms,
    Population::lemma_spec_from_view,
    Population::lemma_from_own_view,
    Money::lemma_spec_from_view,
    Money::lemma_from_own_view,
};

/// Whether `b` differs from `a` at most in the cohorts, courses, agreements and labor
/// markets, and in events recorded after `a`'s.
pub open spec fn labor_frame(a: WorldView, b: WorldView) -> bool {
    &&& b == (WorldView {
        cohorts: b.cohorts,
        workforce_training: b.workforce_training,
        employment_agreements: b.employment_agreements,
        regional_labor_market: b.regional_labor_market,
        regional_skill_labor_market: b.regional_skill_labor_market,
        events: b.events,
        ..a
    })
    &&& a.events.len() <= b.events.len()
    &&& forall|i: int| 0 <= i < a.events.len() ==> b.events[i] == a.events[i]
}

/// A month of the courses changes only what `labor_frame` allows.
proof fn lemma_training_frame(w: WorldView, ks: Seq<u32>)
    ensures
        labor_frame(w, crate::labor::training_months(w, ks)),
    decreases ks.len(),
{
    if ks.len() > 0 {
        lemma_training_frame(w, ks.drop_last());
    }
}

/// The value of a quantity in thousandths at a unit price (truncated), if it fits the
/// currency.
pub open spec fn quantity_value(price: int, quantity: int) -> Result<int, WorldError> {
    let v = tdiv(quantity * price, 1000);
    if v > i64::MAX || v < i64::MIN {
        Err(WorldError::ArithmeticOverflow("quantity value"))
    } else {
        Ok(v)
    }
}

/// The cost of the inputs `inputs` of one batch at the prices of `region`: `None` once an
/// input has no price there.
pub open spec fn materials_cost(w: WorldView, region: u32, inputs: Seq<ProductionInput>) -> Result<
    Option<int>,
    WorldError,
>
    decreases inputs.len(),
{
    if inputs.len() == 0 {
        Ok(Some(0))
    } else {
        match materials_cost(w, region, inputs.drop_last()) {
            Err(e) => Err(e),
            Ok(None) => Ok(None),
            Ok(Some(s)) => {
                let i = inputs.last();
                let key = (region, i.good@);
                if !w.regional_prices.contains_key(key) {
                    Ok(None)
                } else {
                    match quantity_value(w.regional_prices[key]@ as int, i.quantity_per_batch@ as int) {
                        Err(e) => Err(e),
                        Ok(v) => if s + v > i64::MAX || s + v < i64::MIN {
                            Err(WorldError::ArithmeticOverflow("labor value materials"))
                        } else {
                            Ok(Some(s + v))
                        },
                    }
                }
            },
        }
    }
}

/// `v` within the range of `i64`.
pub open spec fn clamp_i64(v: int) -> int {
    if v > i64::MAX {
        i64::MAX as int
    } else if v < i64::MIN {
        i64::MIN as int
    } else {
        v
    }
}

/// The most a firm can pay a worker a month before the hire loses money: what a batch
/// fetches at the local price, less its inputs at local prices, per worker-month of the
/// batch (none where the recipe, its good or an input has no local price; zero where a
/// batch earns nothing).
pub open spec fn value_ceiling(w: WorldView, firm: u32) -> Result<Option<int>, WorldError> {
    let f = w.firms[firm];
    let rid = f.spec_recipe()@;
    if !w.production_recipes.contains_key(rid) {
        Ok(None)
    } else {
        let recipe = w.production_recipes[rid];
        let region = f.spec_region()@;
        let key = (region, recipe.spec_output_good()@);
        if !w.regional_prices.contains_key(key) {
            Ok(None)
        } else {
            match quantity_value(w.regional_prices[key]@ as int, recipe.spec_output_per_batch() as int) {
                Err(e) => Err(e),
                Ok(revenue) => match materials_cost(w, region, recipe.spec_inputs()) {
                    Err(e) => Err(e),
                    Ok(None) => Ok(None),
                    Ok(Some(m)) => {
                        let margin = clamp_i64(revenue - m);
                        if margin <= 0 {
                            Ok(Some(0))
                        } else {
                            let c = margin * 1000 / (recipe.spec_labor() as int);
                            if c > i64::MAX {
                                Err(WorldError::ArithmeticOverflow("labor value ceiling"))
                            } else {
                                Ok(Some(c))
                            }
                        }
                    },
                },
            }
        }
    }
}

/// Whether cohort `c` can fill a vacancy of a recipe needing `minimum` in `region`: an
/// unemployed local cohort with the education and skill, not in training, with a free
/// worker.
pub open spec fn hireable(w: WorldView, c: u32, region: u32, recipe: u32, minimum: EducationLevel) -> bool {
    let k = w.cohorts[c];
    &&& k.region@ == region
    &&& k.employment == EmploymentStatus::Unemployed
    &&& education_rank(k.education) >= education_rank(minimum)
    &&& has_recipe_skill(w, c, recipe)
    &&& !w.workforce_training.contains_key(c)
    &&& available_workers(w, c) > 0
}

/// The hireable cohort among `ks` with the most education, the lowest id among equals.
pub open spec fn best_hireable(w: WorldView, region: u32, recipe: u32, minimum: EducationLevel, ks: Seq<u32>) -> Option<
    u32,
>
    decreases ks.len(),
{
    if ks.len() == 0 {
        None
    } else {
        let b = best_hireable(w, region, recipe, minimum, ks.drop_last());
        let c = ks.last();
        if !hireable(w, c, region, recipe, minimum) {
            b
        } else {
            match b {
                None => Some(c),
                Some(x) => if education_rank(w.cohorts[c].education) > education_rank(w.cohorts[x].education) {
                    Some(c)
                } else {
                    Some(x)
                },
            }
        }
    }
}

/// A firm's offer of the month: for an open vacancy of a recipe with a configured
/// education, its bid for the best hireable local cohort, where the bid is within what
/// the work is worth and the firm can pay it.
pub open spec fn firm_offer(w: WorldView, firm: u32) -> Result<Option<EmploymentMatch>, WorldError> {
    match labor_vacancy(w, FirmId(firm)) {
        Err(e) => Err(e),
        Ok(v) => {
            let f = w.firms[firm];
            let recipe = f.spec_recipe()@;
            if v == 0 || !w.recipe_minimum_education.contains_key(recipe) {
                Ok(None)
            } else {
                let minimum = w.recipe_minimum_education[recipe];
                match best_hireable(w, f.spec_region()@, recipe, minimum, key_order(w.cohorts)) {
                    None => Ok(None),
                    Some(c) => match competitive_bid(w, firm, c) {
                        Err(e) => Err(e),
                        Ok((wage, adjustment)) => match value_ceiling(w, firm) {
                            Err(e) => Err(e),
                            Ok(ceiling) => if (ceiling matches Some(m) && wage > m) || f.spec_cash() < wage {
                                Ok(None)
                            } else {
                                Ok(
                                    Some(
                                        EmploymentMatch {
                                            firm: FirmId(firm),
                                            cohort: CohortId(c),
                                            wage: Money::spec_from(wage as i64),
                                            minimum_education: minimum,
                                            labor_market_adjustment_basis_points: adjustment as i16,
                                        },
                                    ),
                                )
                            },
                        },
                    },
                }
            }
        },
    }
}

/// The offers of the firms `ks`, in turn; the first error stops them.
pub open spec fn offers_of(w: WorldView, ks: Seq<u32>) -> Result<Seq<EmploymentMatch>, WorldError>
    decreases ks.len(),
{
    if ks.len() == 0 {
        Ok(Seq::empty())
    } else {
        match offers_of(w, ks.drop_last()) {
            Err(e) => Err(e),
            Ok(s) => match firm_offer(w, ks.last()) {
                Err(e) => Err(e),
                Ok(None) => Ok(s),
                Ok(Some(o)) => Ok(s.push(o)),
            },
        }
    }
}

/// The value of a quantity at a price (see `quantity_value`).
fn quantity_value_of(price: Money, quantity: QuantityMilli) -> (r: Result<i64, WorldError>)
    ensures
        match quantity_value(price@ as int, quantity@ as int) {
            Err(e) => r == Err::<i64, WorldError>(e),
            Ok(v) => r == Ok::<i64, WorldError>(v as i64),
        },
{
    let q: i128 = quantity.get() as i128;
    let p: i128 = price.minor_units() as i128;
    proof {
        let qq = q as int;
        let pp = p as int;
        assert(-0x7fff_ffff_ffff_ffff_8000_0000_0000_0000 <= qq * pp <= 0x7fff_ffff_ffff_fffe_8000_0000_0000_0001)
            by (nonlinear_arith)
            requires
                0 <= qq <= 0xffff_ffff_ffff_ffff,
                -0x8000_0000_0000_0000 <= pp <= 0x7fff_ffff_ffff_ffff,
        ;
    }
    let raw: i128 = q * p;
    let v: i128 = if raw >= 0 {
        raw / 1000
    } else {
        -((-raw) / 1000)
    };
    proof {
        assert(v as int == tdiv(q * p, 1000));
    }
    if v > i64::MAX as i128 || v < i64::MIN as i128 {
        return Err(WorldError::ArithmeticOverflow("quantity value"));
    }
    Ok(v as i64)
}

/// Once the input cost of a prefix is an error or unpriced, longer prefixes keep it.
proof fn lemma_materials_sticks(w: WorldView, region: u32, s: Seq<ProductionInput>, k: int, n: int)
    requires
        0 <= k <= n <= s.len(),
        !(materials_cost(w, region, s.take(k)) is Ok && materials_cost(w, region, s.take(k))->Ok_0 is Some),
    ensures
        materials_cost(w, region, s.take(n)) == materials_cost(w, region, s.take(k)),
    decreases n - k,
{
    if k < n {
        lemma_materials_sticks(w, region, s, k, n - 1);
        assert(s.take(n).drop_last() =~= s.take(n - 1));
    }
}

/// Once the offers of a prefix of firms fail, longer prefixes fail alike.
proof fn lemma_offers_stick(w: WorldView, s: Seq<u32>, k: int, n: int)
    requires
        0 <= k <= n <= s.len(),
        offers_of(w, s.take(k)) is Err,
    ensures
        offers_of(w, s.take(n)) == offers_of(w, s.take(k)),
    decreases n - k,
{
    if k < n {
        lemma_offers_stick(w, s, k, n - 1);
        assert(s.take(n).drop_last() =~= s.take(n - 1));
    }
}

impl World {
    /// The input cost of a batch at a region's prices (see `materials_cost`).
    fn materials_cost_of(&self, region: u32, inputs: &[ProductionInput]) -> (r: Result<Option<i64>, WorldError>)
        ensures
            match materials_cost(self@, region, inputs@) {
                Err(e) => r == Err::<Option<i64>, WorldError>(e),
                Ok(None) => r == Ok::<Option<i64>, WorldError>(None),
                Ok(Some(v)) => r == Ok::<Option<i64>, WorldError>(Some(v as i64)),
            },
    {
        let mut sum: i64 = 0;
        let mut i: usize = 0;
        proof {
            assert(inputs@.take(0) =~= Seq::<ProductionInput>::empty());
        }
        while i < inputs.len()
            invariant
                i <= inputs@.len(),
                materials_cost(self@, region, inputs@.take(i as int)) == Ok::<Option<int>, WorldError>(
                    Some(sum as int),
                ),
            decreases inputs.len() - i,
        {
            let input = inputs[i];
            proof {
                assert(inputs@.take(i + 1).drop_last() =~= inputs@.take(i as int));
                assert(inputs@.take(i + 1).last() == input);
            }
            let key = (region, input.good.get());
            let price = match self.regional_prices.get(&key) {
                Some(p) => *p,
                None => {
                    proof {
                        lemma_materials_sticks(self@, region, inputs@, i + 1, inputs@.len() as int);
                        assert(inputs@.take(inputs@.len() as int) =~= inputs@);
                    }
                    return Ok(None);
                },
            };
            let v = match quantity_value_of(price, input.quantity_per_batch) {
                Ok(v) => v,
                Err(e) => {
                    proof {
                        lemma_materials_sticks(self@, region, inputs@, i + 1, inputs@.len() as int);
                        assert(inputs@.take(inputs@.len() as int) =~= inputs@);
                    }
                    return Err(e);
                },
            };
            let total: i128 = sum as i128 + v as i128;
            if total > i64::MAX as i128 || total < i64::MIN as i128 {
                proof {
                    lemma_materials_sticks(self@, region, inputs@, i + 1, inputs@.len() as int);
                    assert(inputs@.take(inputs@.len() as int) =~= inputs@);
                }
                return Err(WorldError::ArithmeticOverflow("labor value materials"));
            }
            sum = total as i64;
            i = i + 1;
        }
        proof {
            assert(inputs@.take(inputs@.len() as int) =~= inputs@);
        }
        Ok(Some(sum))
    }

    /// The most a firm can pay a worker before the hire loses money (see `value_ceiling`).
    fn value_ceiling_of(&self, firm: u32) -> (r: Result<Option<i64>, WorldError>)
        requires
            self@.firms.contains_key(firm),
        ensures
            match value_ceiling(self@, firm) {
                Err(e) => r == Err::<Option<i64>, WorldError>(e),
                Ok(None) => r == Ok::<Option<i64>, WorldError>(None),
                Ok(Some(v)) => 0 <= v <= i64::MAX && r == Ok::<Option<i64>, WorldError>(Some(v as i64)),
            },
    {
        let f = self.firms.get(&firm).unwrap();
        let recipe = match self.production_recipes.get(&f.recipe().get()) {
            Some(r) => r,
            None => {
                return Ok(None);
            },
        };
        let region = f.region().get();
        let price = match self.regional_prices.get(&(region, recipe.output_good().get())) {
            Some(p) => *p,
            None => {
                return Ok(None);
            },
        };
        let revenue = match quantity_value_of(price, recipe.output_per_batch()) {
            Ok(v) => v,
            Err(e) => {
                return Err(e);
            },
        };
        let materials = match self.materials_cost_of(region, recipe.inputs()) {
            Ok(Some(m)) => m,
            Ok(None) => {
                return Ok(None);
            },
            Err(e) => {
                return Err(e);
            },
        };
        let diff: i128 = revenue as i128 - materials as i128;
        let margin: i64 = if diff > i64::MAX as i128 {
            i64::MAX
        } else if diff < i64::MIN as i128 {
            i64::MIN
        } else {
            diff as i64
        };
        proof {
            assert(margin as int == clamp_i64(revenue - materials));
        }
        if margin <= 0 {
            return Ok(Some(0));
        }
        let labor: u64 = recipe.labor_milli_worker_months();
        let c: i128 = margin as i128 * 1000 / labor as i128;
        proof {
            assert(c as int == margin * 1000 / (labor as int));
        }
        if c > i64::MAX as i128 {
            return Err(WorldError::ArithmeticOverflow("labor value ceiling"));
        }
        Ok(Some(c as i64))
    }

    /// Whether a cohort can fill a vacancy (see `hireable`).
    fn hireable_of(&self, c: u32, region: u32, recipe: u32, minimum: EducationLevel) -> (r: bool)
        requires
            self@.cohorts.contains_key(c),
        ensures
            r == hireable(self@, c, region, recipe, minimum),
    {
        let k = self.cohorts.get(&c).unwrap();
        k.region.get() == region && k.employment == EmploymentStatus::Unemployed && education_rank_of(k.education)
            >= education_rank_of(minimum) && self.has_recipe_skill_of(c, recipe)
            && !self.workforce_training.contains_key(&c) && self.available_workers_of(c) > 0
    }

    /// The best hireable cohort for a recipe in a region (see `best_hireable`).
    fn best_hireable_of(&self, region: u32, recipe: u32, minimum: EducationLevel) -> (r: Option<u32>)
        ensures
            r == best_hireable(self@, region, recipe, minimum, key_order(self@.cohorts)),
            r matches Some(c) ==> self@.cohorts.contains_key(c),
    {
        let ks = keys_in_order(&self.cohorts);
        let mut best: Option<u32> = None;
        let mut best_rank: u32 = 0;
        let mut i: usize = 0;
        proof {
            assert(ks@.take(0) =~= Seq::<u32>::empty());
        }
        while i < ks.len()
            invariant
                ks@ == key_order(self@.cohorts),
                forall|j: int| 0 <= j < ks@.len() ==> self@.cohorts.contains_key(#[trigger] ks@[j]),
                i <= ks.len(),
                best == best_hireable(self@, region, recipe, minimum, ks@.take(i as int)),
                best matches Some(x) ==> self@.cohorts.contains_key(x) && best_rank as int == education_rank(
                    self@.cohorts[x].education,
                ),
            decreases ks.len() - i,
        {
            let c = ks[i];
            proof {
                assert(ks@.take(i + 1).drop_last() =~= ks@.take(i as int));
                assert(ks@.take(i + 1).last() == c);
            }
            if self.hireable_of(c, region, recipe, minimum) {
                let rank = education_rank_of(self.cohorts.get(&c).unwrap().education);
                match best {
                    None => {
                        best = Some(c);
                        best_rank = rank;
                    },
                    Some(_) => {
                        if rank > best_rank {
                            best = Some(c);
                            best_rank = rank;
                        }
                    },
                }
            }
            i = i + 1;
        }
        proof {
            assert(ks@.take(ks@.len() as int) =~= ks@);
        }
        best
    }

    /// A firm's offer of the month (see `firm_offer`).
    fn firm_offer_of(&self, firm: u32) -> (r: Result<Option<EmploymentMatch>, WorldError>)
        ensures
            r == firm_offer(self@, firm),
    {
        let vacancy = match self.labor_vacancy_of(FirmId(firm)) {
            Ok(v) => v,
            Err(e) => {
                return Err(e);
            },
        };
        let f = self.firms.get(&firm).unwrap();
        let recipe = f.recipe().get();
        if vacancy == 0 {
            return Ok(None);
        }
        let minimum = match self.recipe_minimum_education.get(&recipe) {
            Some(m) => *m,
            None => {
                return Ok(None);
            },
        };
        let c = match self.best_hireable_of(f.region().get(), recipe, minimum) {
            Some(c) => c,
            None => {
                return Ok(None);
            },
        };
        let (wage, adjustment) = match self.competitive_bid_of(firm, c) {
            Ok(b) => b,
            Err(e) => {
                return Err(e);
            },
        };
        let ceiling = match self.value_ceiling_of(firm) {
            Ok(x) => x,
            Err(e) => {
                return Err(e);
            },
        };
        let above = match ceiling {
            Some(m) => wage.minor_units() > m,
            None => false,
        };
        if above || f.cash().minor_units() < wage.minor_units() {
            return Ok(None);
        }
        proof {
            Money::lemma_from_own_view(wage);
        }
        Ok(
            Some(
                EmploymentMatch {
                    firm: FirmId(firm),
                    cohort: CohortId(c),
                    wage,
                    minimum_education: minimum,
                    labor_market_adjustment_basis_points: adjustment,
                },
            ),
        )
    }

    /// Every firm's offer of the month, in firm order (see `offers_of`).
    fn offers_of_month(&self) -> (r: Result<Vec<EmploymentMatch>, WorldError>)
        ensures
            match offers_of(self@, key_order(self@.firms)) {
                Err(e) => r == Err::<Vec<EmploymentMatch>, WorldError>(e),
                Ok(s) => r matches Ok(v) && v@ == s,
            },
    {
        let ks = keys_in_order(&self.firms);
        let mut offers: Vec<EmploymentMatch> = Vec::new();
        let mut i: usize = 0;
        proof {
            assert(ks@.take(0) =~= Seq::<u32>::empty());
        }
        while i < ks.len()
            invariant
                ks@ == key_order(self@.firms),
                i <= ks.len(),
                offers_of(self@, ks@.take(i as int)) == Ok::<Seq<EmploymentMatch>, WorldError>(offers@),
            decreases ks.len() - i,
        {
            let firm = ks[i];
            proof {
                assert(ks@.take(i + 1).drop_last() =~= ks@.take(i as int));
                assert(ks@.take(i + 1).last() == firm);
            }
            match self.firm_offer_of(firm) {
                Err(e) => {
                    proof {
                        lemma_offers_stick(self@, ks@, i + 1, ks@.len() as int);
                        assert(ks@.take(ks@.len() as int) =~= ks@);
                    }
                    return Err(e);
                },
                Ok(None) => {},
                Ok(Some(o)) => {
                    offers.push(o);
                },
            }
            i = i + 1;
        }
        proof {
            assert(ks@.take(ks@.len() as int) =~= ks@);
        }
        Ok(offers)
    }
}

/// Whether offer `a` ranks before offer `b`: the higher wage first, then the lower firm
/// id, then the lower cohort id.
pub open spec fn ranks_before(a: EmploymentMatch, b: EmploymentMatch) -> bool {
    ||| a.wage@ > b.wage@
    ||| a.wage@ == b.wage@ && (a.firm@ < b.firm@ || (a.firm@ == b.firm@ && a.cohort@ < b.cohort@))
}

/// Where `x` goes among the ranked offers `t`: before the first offer it ranks before.
pub open spec fn slot(t: Seq<EmploymentMatch>, x: EmploymentMatch) -> int
    decreases t.len(),
{
    if t.len() == 0 {
        0
    } else if ranks_before(x, t[0]) {
        0
    } else {
        1 + slot(t.drop_first(), x)
    }
}

/// The offers `s` in rank order (a stable insertion of each offer in turn).
pub open spec fn ranked(s: Seq<EmploymentMatch>) -> Seq<EmploymentMatch>
    decreases s.len(),
{
    if s.len() == 0 {
        s
    } else {
        let t = ranked(s.drop_last());
        t.insert(slot(t, s.last()), s.last())
    }
}

/// One offer's turn at the matching table: skipped where its firm has no vacancy left or
/// its cohort no free worker, else the hire (see `match_employment_worker`); `Err(None)`
/// where the hire would overflow the agreement counts.
pub open spec fn match_step(v: WorldView, o: EmploymentMatch) -> Result<Option<WorldView>, Option<WorldError>> {
    match labor_vacancy(v, o.firm) {
        Err(e) => Err(Some(e)),
        Ok(n) => if n == 0 || available_workers(v, o.cohort@) == 0 {
            Ok(None)
        } else {
            match match_error(v, o) {
                Some(e) => Err(Some(e)),
                None => if !agreement_fits(v, match_new_agreement(o)) {
                    Err(None)
                } else {
                    match match_result(v, o) {
                        Err(e) => Err(Some(e)),
                        Ok(v2) => Ok(Some(v2)),
                    }
                },
            }
        },
    }
}

/// The offers `s` matched in turn: the world after them and the offers that hired.
pub open spec fn matches_run(w: WorldView, s: Seq<EmploymentMatch>) -> Result<
    (WorldView, Seq<EmploymentMatch>),
    Option<WorldError>,
>
    decreases s.len(),
{
    if s.len() == 0 {
        Ok((w, Seq::empty()))
    } else {
        match matches_run(w, s.drop_last()) {
            Err(e) => Err(e),
            Ok((v, ms)) => match match_step(v, s.last()) {
                Err(e) => Err(e),
                Ok(None) => Ok((v, ms)),
                Ok(Some(v2)) => Ok((v2, ms.push(s.last()))),
            },
        }
    }
}

proof fn lemma_slot_is(t: Seq<EmploymentMatch>, x: EmploymentMatch, j: int)
    requires
        0 <= j <= t.len(),
        forall|k: int| 0 <= k < j ==> !ranks_before(x, #[trigger] t[k]),
        j < t.len() ==> ranks_before(x, t[j]),
    ensures
        slot(t, x) == j,
    decreases j,
{
    if j > 0 {
        let u = t.drop_first();
        assert forall|k: int| 0 <= k < j - 1 implies !ranks_before(x, #[trigger] u[k]) by {
            assert(u[k] == t[k + 1]);
        }
        assert(!ranks_before(x, t[0]));
        lemma_slot_is(u, x, j - 1);
    }
}

proof fn lemma_matches_stick(w: WorldView, s: Seq<EmploymentMatch>, k: int, n: int)
    requires
        0 <= k <= n <= s.len(),
        matches_run(w, s.take(k)) is Err,
    ensures
        matches_run(w, s.take(n)) == matches_run(w, s.take(k)),
    decreases n - k,
{
    if k < n {
        lemma_matches_stick(w, s, k, n - 1);
        assert(s.take(n).drop_last() =~= s.take(n - 1));
    }
}

/// Whether offer `a` ranks before offer `b` (see `ranks_before`).
fn ranks_before_of(a: &EmploymentMatch, b: &EmploymentMatch) -> (r: bool)
    ensures
        r == ranks_before(*a, *b),
{
    let wa = a.wage.minor_units();
    let wb = b.wage.minor_units();
    wa > wb || (wa == wb && (a.firm.get() < b.firm.get() || (a.firm.get() == b.firm.get() && a.cohort.get()
        < b.cohort.get())))
}

/// The offers in rank order (see `ranked`).
fn rank_offers(offers: &Vec<EmploymentMatch>) -> (r: Vec<EmploymentMatch>)
    ensures
        r@ == ranked(offers@),
{
    let mut out: Vec<EmploymentMatch> = Vec::new();
    let mut i: usize = 0;
    proof {
        assert(offers@.take(0) =~= Seq::<EmploymentMatch>::empty());
    }
    while i < offers.len()
        invariant
            i <= offers.len(),
            out@ == ranked(offers@.take(i as int)),
        decreases offers.len() - i,
    {
        let x = offers[i];
        let mut j: usize = 0;
        while j < out.len() && !ranks_before_of(&x, &out[j])
            invariant
                j <= out.len(),
                forall|k: int| 0 <= k < j ==> !ranks_before(x, #[trigger] out@[k]),
            decreases out.len() - j,
        {
            j = j + 1;
        }
        proof {
            lemma_slot_is(out@, x, j as int);
            assert(offers@.take(i + 1).drop_last() =~= offers@.take(i as int));
            assert(offers@.take(i + 1).last() == x);
        }
        out.insert(j, x);
        i = i + 1;
    }
    proof {
        assert(offers@.take(offers@.len() as int) =~= offers@);
    }
    out
}

impl World {
    /// Matches the ranked offers in turn (see `matches_run`); after an error the world
    /// is left to the caller to discard.
    fn run_matches(&mut self, offers: &Vec<EmploymentMatch>) -> (r: Result<Vec<EmploymentMatch>, WorldError>)
        requires
            !(matches_run(old(self)@, offers@) matches Err(None)),
        ensures
            match matches_run(old(self)@, offers@) {
                Err(e) => r == Err::<Vec<EmploymentMatch>, WorldError>(e->Some_0),
                Ok((v, ms)) => r matches Ok(m) && m@ == ms && final(self)@ == v,
            },
            labor_frame(old(self)@, final(self)@),
    {
        let ghost w0 = self@;
        let mut ms: Vec<EmploymentMatch> = Vec::new();
        let mut i: usize = 0;
        proof {
            assert(offers@.take(0) =~= Seq::<EmploymentMatch>::empty());
        }
        while i < offers.len()
            invariant
                i <= offers.len(),
                w0 == old(self)@,
                labor_frame(w0, self@),
                !(matches_run(w0, offers@) matches Err(None)),
                matches_run(w0, offers@.take(i as int)) == Ok::<
                    (WorldView, Seq<EmploymentMatch>),
                    Option<WorldError>,
                >((self@, ms@)),
            decreases offers.len() - i,
        {
            let o = offers[i];
            proof {
                assert(offers@.take(i + 1).drop_last() =~= offers@.take(i as int));
                assert(offers@.take(i + 1).last() == o);
                assert(offers@.take(offers@.len() as int) =~= offers@);
            }
            let vacancy = match self.labor_vacancy_of(o.firm) {
                Ok(n) => n,
                Err(e) => {
                    proof {
                        assert(match_step(self@, o) == Err::<Option<WorldView>, Option<WorldError>>(Some(e)));
                        assert(matches_run(w0, offers@.take(i + 1)) == Err::<
                            (WorldView, Seq<EmploymentMatch>),
                            Option<WorldError>,
                        >(Some(e)));
                        lemma_matches_stick(w0, offers@, i + 1, offers@.len() as int);
                    }
                    return Err(e);
                },
            };
            if vacancy != 0 && self.available_workers_of(o.cohort.get()) != 0 {
                proof {
                    if match_error(self@, o) is None && !agreement_fits(self@, match_new_agreement(o)) {
                        lemma_matches_stick(w0, offers@, i + 1, offers@.len() as int);
                    }
                }
                let ghost old_v = self@;
                match self.match_employment_worker(o) {
                    Ok(()) => {
                        ms.push(o);
                    },
                    Err(e) => {
                        proof {
                            assert(match_step(old_v, o) == Err::<Option<WorldView>, Option<WorldError>>(Some(e)));
                            assert(matches_run(w0, offers@.take(i + 1)) == Err::<
                                (WorldView, Seq<EmploymentMatch>),
                                Option<WorldError>,
                            >(Some(e)));
                            lemma_matches_stick(w0, offers@, i + 1, offers@.len() as int);
                        }
                        return Err(e);
                    },
                }
            }
            i = i + 1;
        }
        proof {
            assert(offers@.take(offers@.len() as int) =~= offers@);
        }
        Ok(ms)
    }
}

/// A worker of agreement `key` that firm `to` may lure away: an active, settled (three
/// months or more) agreement of another firm that has not hired or switched this month,
/// of a registered local cohort with the education and skill `to` needs, to whom `to`'s
/// current bid is affordable and at least 10% above the current wage.
pub open spec fn switch_candidate(v: WorldView, to: u32, touched: Set<u32>, key: (u32, u32)) -> Result<
    Option<EmploymentSwitch>,
    WorldError,
> {
    let a = v.employment_agreements[key];
    let target = v.firms[to];
    let recipe = target.spec_recipe()@;
    let minimum = v.recipe_minimum_education[recipe];
    if !(a.active && a.workers > 0 && a.months_at_current_firm >= 3 && a.firm@ != to && !touched.contains(a.firm@))
        || !v.cohorts.contains_key(a.cohort@) {
        Ok(None)
    } else {
        let c = v.cohorts[a.cohort@];
        if c.region != target.spec_region() || education_rank(c.education) < education_rank(minimum) || !has_recipe_skill(
            v,
            a.cohort@,
            recipe,
        ) {
            Ok(None)
        } else {
            match competitive_bid(v, to, a.cohort@) {
                Err(e) => Err(e),
                Ok((wage, adjustment)) => if target.spec_cash() < wage || wage * 100
                    < a.monthly_wage_per_worker@ * 110 {
                    Ok(None)
                } else {
                    Ok(
                        Some(
                            EmploymentSwitch {
                                from_firm: a.firm,
                                to_firm: FirmId(to),
                                cohort: a.cohort,
                                previous_wage: a.monthly_wage_per_worker,
                                offered_wage: Money::spec_from(wage as i64),
                                minimum_education: minimum,
                                labor_market_adjustment_basis_points: adjustment as i16,
                            },
                        ),
                    )
                },
            }
        }
    }
}

/// Whether switch `a` ranks before switch `b`: the higher offer, then the lower current
/// wage, then the lower source firm id, then the lower cohort id.
pub open spec fn switch_ranks_before(a: EmploymentSwitch, b: EmploymentSwitch) -> bool {
    ||| a.offered_wage@ > b.offered_wage@
    ||| a.offered_wage@ == b.offered_wage@ && (a.previous_wage@ < b.previous_wage@ || (a.previous_wage@
        == b.previous_wage@ && (a.from_firm@ < b.from_firm@ || (a.from_firm@ == b.from_firm@ && a.cohort@
        < b.cohort@))))
}

/// The first-ranked candidate among the agreements `ks` for firm `to`.
pub open spec fn best_switch(v: WorldView, to: u32, touched: Set<u32>, ks: Seq<(u32, u32)>) -> Result<
    Option<EmploymentSwitch>,
    WorldError,
>
    decreases ks.len(),
{
    if ks.len() == 0 {
        Ok(None)
    } else {
        match best_switch(v, to, touched, ks.drop_last()) {
            Err(e) => Err(e),
            Ok(b) => match switch_candidate(v, to, touched, ks.last()) {
                Err(e) => Err(e),
                Ok(None) => Ok(b),
                Ok(Some(s)) => match b {
                    None => Ok(Some(s)),
                    Some(x) => if switch_ranks_before(s, x) {
                        Ok(Some(s))
                    } else {
                        Ok(Some(x))
                    },
                },
            },
        }
    }
}

/// Firm `to`'s turn at luring a worker: where it has not hired or switched this month,
/// has a vacancy and a configured education, it takes its first-ranked candidate (see
/// `switch_employment_worker`); `Err(None)` where that would overflow the agreement
/// counts.
pub open spec fn switch_turn(v: WorldView, to: u32, touched: Set<u32>) -> Result<
    Option<(WorldView, EmploymentSwitch)>,
    Option<WorldError>,
> {
    if touched.contains(to) {
        Ok(None)
    } else {
        match labor_vacancy(v, FirmId(to)) {
            Err(e) => Err(Some(e)),
            Ok(n) => if n == 0 || !v.recipe_minimum_education.contains_key(v.firms[to].spec_recipe()@) {
                Ok(None)
            } else {
                match best_switch(v, to, touched, pair_key_order(v.employment_agreements)) {
                    Err(e) => Err(Some(e)),
                    Ok(None) => Ok(None),
                    Ok(Some(s)) => match switch_error(v, s) {
                        Some(e) => Err(Some(e)),
                        None => if !agreement_fits(
                            WorldView { employment_agreements: switch_released(v, s), ..v },
                            switch_new_agreement(s),
                        ) {
                            Err(None)
                        } else {
                            match switch_result(v, s) {
                                Err(e) => Err(Some(e)),
                                Ok(v2) => Ok(Some((v2, s))),
                            }
                        },
                    },
                }
            },
        }
    }
}

/// The switching turns of the firms `fs`, from the firms `touched` at the start: the
/// world after them, the switches made, and the firms touched at the end.
pub open spec fn switches_run(w: WorldView, fs: Seq<u32>, touched: Set<u32>) -> Result<
    (WorldView, Seq<EmploymentSwitch>, Set<u32>),
    Option<WorldError>,
>
    decreases fs.len(),
{
    if fs.len() == 0 {
        Ok((w, Seq::empty(), touched))
    } else {
        match switches_run(w, fs.drop_last(), touched) {
            Err(e) => Err(e),
            Ok((v, ss, t)) => match switch_turn(v, fs.last(), t) {
                Err(e) => Err(e),
                Ok(None) => Ok((v, ss, t)),
                Ok(Some((v2, s))) => Ok((v2, ss.push(s), t.insert(s.from_firm@).insert(s.to_firm@))),
            },
        }
    }
}

/// The firms that hired in the matches `ms`.
pub open spec fn hiring_firms(ms: Seq<EmploymentMatch>) -> Set<u32>
    decreases ms.len(),
{
    if ms.len() == 0 {
        Set::empty()
    } else {
        hiring_firms(ms.drop_last()).insert(ms.last().firm@)
    }
}

proof fn lemma_best_switch_sticks(v: WorldView, to: u32, touched: Set<u32>, s: Seq<(u32, u32)>, k: int, n: int)
    requires
        0 <= k <= n <= s.len(),
        best_switch(v, to, touched, s.take(k)) is Err,
    ensures
        best_switch(v, to, touched, s.take(n)) == best_switch(v, to, touched, s.take(k)),
    decreases n - k,
{
    if k < n {
        lemma_best_switch_sticks(v, to, touched, s, k, n - 1);
        assert(s.take(n).drop_last() =~= s.take(n - 1));
    }
}

proof fn lemma_switches_stick(w: WorldView, s: Seq<u32>, touched: Set<u32>, k: int, n: int)
    requires
        0 <= k <= n <= s.len(),
        switches_run(w, s.take(k), touched) is Err,
    ensures
        switches_run(w, s.take(n), touched) == switches_run(w, s.take(k), touched),
    decreases n - k,
{
    if k < n {
        lemma_switches_stick(w, s, touched, k, n - 1);
        assert(s.take(n).drop_last() =~= s.take(n - 1));
    }
}

/// Whether switch `a` ranks before switch `b` (see `switch_ranks_before`).
fn switch_ranks_before_of(a: &EmploymentSwitch, b: &EmploymentSwitch) -> (r: bool)
    ensures
        r == switch_ranks_before(*a, *b),
{
    let oa = a.offered_wage.minor_units();
    let ob = b.offered_wage.minor_units();
    let pa = a.previous_wage.minor_units();
    let pb = b.previous_wage.minor_units();
    oa > ob || (oa == ob && (pa < pb || (pa == pb && (a.from_firm.get() < b.from_firm.get() || (a.from_firm.get()
        == b.from_firm.get() && a.cohort.get() < b.cohort.get())))))
}

impl World {
    /// A candidate for firm `to` (see `switch_candidate`).
    fn switch_candidate_of(&self, to: u32, touched: &BTreeMap<u32, bool>, key: (u32, u32)) -> (r: Result<
        Option<EmploymentSwitch>,
        WorldError,
    >)
        requires
            self@.employment_agreements.contains_key(key),
            self@.firms.contains_key(to),
            self@.recipe_minimum_education.contains_key(self@.firms[to].spec_recipe()@),
        ensures
            r == switch_candidate(self@, to, touched@.dom(), key),
    {
        let a = *self.employment_agreements.get(&key).unwrap();
        let target = self.firms.get(&to).unwrap();
        let recipe = target.recipe().get();
        let minimum = *self.recipe_minimum_education.get(&recipe).unwrap();
        if !(a.active && a.workers > 0 && a.months_at_current_firm >= 3 && a.firm.get() != to && !touched.contains_key(
            &a.firm.get(),
        )) {
            return Ok(None);
        }
        let c = match self.cohorts.get(&a.cohort.get()) {
            Some(c) => *c,
            None => {
                return Ok(None);
            },
        };
        if c.region != target.region() || education_rank_of(c.education) < education_rank_of(minimum)
            || !self.has_recipe_skill_of(a.cohort.get(), recipe) {
            return Ok(None);
        }
        let (wage, adjustment) = match self.competitive_bid_of(to, a.cohort.get()) {
            Ok(b) => b,
            Err(e) => {
                return Err(e);
            },
        };
        if target.cash().minor_units() < wage.minor_units() || (wage.minor_units() as i128) * 100
            < (a.monthly_wage_per_worker.minor_units() as i128) * 110 {
            return Ok(None);
        }
        proof {
            Money::lemma_from_own_view(wage);
        }
        Ok(
            Some(
                EmploymentSwitch {
                    from_firm: a.firm,
                    to_firm: FirmId(to),
                    cohort: a.cohort,
                    previous_wage: a.monthly_wage_per_worker,
                    offered_wage: wage,
                    minimum_education: minimum,
                    labor_market_adjustment_basis_points: adjustment,
                },
            ),
        )
    }

    /// The first-ranked candidate for firm `to` (see `best_switch`).
    fn best_switch_of(&self, to: u32, touched: &BTreeMap<u32, bool>) -> (r: Result<Option<EmploymentSwitch>, WorldError>)
        requires
            self@.firms.contains_key(to),
            self@.recipe_minimum_education.contains_key(self@.firms[to].spec_recipe()@),
        ensures
            r == best_switch(self@, to, touched@.dom(), pair_key_order(self@.employment_agreements)),
    {
        let ks = pair_keys_in_order(&self.employment_agreements);
        let mut best: Option<EmploymentSwitch> = None;
        let mut i: usize = 0;
        proof {
            assert(ks@.take(0) =~= Seq::<(u32, u32)>::empty());
        }
        while i < ks.len()
            invariant
                ks@ == pair_key_order(self@.employment_agreements),
                forall|j: int| 0 <= j < ks@.len() ==> self@.employment_agreements.contains_key(#[trigger] ks@[j]),
                self@.firms.contains_key(to),
                self@.recipe_minimum_education.contains_key(self@.firms[to].spec_recipe()@),
                i <= ks.len(),
                best_switch(self@, to, touched@.dom(), ks@.take(i as int)) == Ok::<
                    Option<EmploymentSwitch>,
                    WorldError,
                >(best),
            decreases ks.len() - i,
        {
            let key = ks[i];
            proof {
                assert(ks@.take(i + 1).drop_last() =~= ks@.take(i as int));
                assert(ks@.take(i + 1).last() == key);
            }
            match self.switch_candidate_of(to, touched, key) {
                Err(e) => {
                    proof {
                        lemma_best_switch_sticks(self@, to, touched@.dom(), ks@, i + 1, ks@.len() as int);
                        assert(ks@.take(ks@.len() as int) =~= ks@);
                    }
                    return Err(e);
                },
                Ok(None) => {},
                Ok(Some(s)) => {
                    match best {
                        None => {
                            best = Some(s);
                        },
                        Some(x) => {
                            if switch_ranks_before_of(&s, &x) {
                                best = Some(s);
                            }
                        },
                    }
                },
            }
            i = i + 1;
        }
        proof {
            assert(ks@.take(ks@.len() as int) =~= ks@);
        }
        Ok(best)
    }

    /// Every firm's switching turn in firm order, from the firms that hired (see
    /// `switches_run`); after an error the world is left to the caller to discard.
    fn run_switches(&mut self, ms: &Vec<EmploymentMatch>) -> (r: Result<Vec<EmploymentSwitch>, WorldError>)
        requires
            !(switches_run(old(self)@, key_order(old(self)@.firms), hiring_firms(ms@)) matches Err(None)),
        ensures
            match switches_run(old(self)@, key_order(old(self)@.firms), hiring_firms(ms@)) {
                Err(e) => r == Err::<Vec<EmploymentSwitch>, WorldError>(e->Some_0),
                Ok((v, ss, _)) => r matches Ok(m) && m@ == ss && final(self)@ == v,
            },
            labor_frame(old(self)@, final(self)@),
    {
        let ghost w0 = self@;
        let mut touched: BTreeMap<u32, bool> = BTreeMap::new();
        let mut j: usize = 0;
        proof {
            assert(ms@.take(0) =~= Seq::<EmploymentMatch>::empty());
            assert(touched@.dom() =~= hiring_firms(ms@.take(0)));
        }
        while j < ms.len()
            invariant
                j <= ms.len(),
                touched@.dom() == hiring_firms(ms@.take(j as int)),
            decreases ms.len() - j,
        {
            proof {
                assert(ms@.take(j + 1).drop_last() =~= ms@.take(j as int));
            }
            touched.insert(ms[j].firm.get(), true);
            proof {
                assert(touched@.dom() =~= hiring_firms(ms@.take(j + 1)));
            }
            j = j + 1;
        }
        proof {
            assert(ms@.take(ms@.len() as int) =~= ms@);
        }
        let ghost t0 = touched@.dom();
        let fs = keys_in_order(&self.firms);
        let mut ss: Vec<EmploymentSwitch> = Vec::new();
        let mut i: usize = 0;
        proof {
            assert(fs@.take(0) =~= Seq::<u32>::empty());
        }
        while i < fs.len()
            invariant
                w0 == old(self)@,
                labor_frame(w0, self@),
                t0 == hiring_firms(ms@),
                fs@ == key_order(w0.firms),
                forall|k: int| 0 <= k < fs@.len() ==> w0.firms.contains_key(#[trigger] fs@[k]),
                self@.firms == w0.firms,
                self@.recipe_minimum_education == w0.recipe_minimum_education,
                i <= fs.len(),
                !(switches_run(w0, fs@, t0) matches Err(None)),
                switches_run(w0, fs@.take(i as int), t0) == Ok::<
                    (WorldView, Seq<EmploymentSwitch>, Set<u32>),
                    Option<WorldError>,
                >((self@, ss@, touched@.dom())),
            decreases fs.len() - i,
        {
            let to = fs[i];
            proof {
                assert(fs@.take(i + 1).drop_last() =~= fs@.take(i as int));
                assert(fs@.take(i + 1).last() == to);
                assert(fs@.take(fs@.len() as int) =~= fs@);
            }
            if !touched.contains_key(&to) {
                let vacancy = match self.labor_vacancy_of(FirmId(to)) {
                    Ok(n) => n,
                    Err(e) => {
                        proof {
                            assert(switch_turn(self@, to, touched@.dom()) == Err::<
                                Option<(WorldView, EmploymentSwitch)>,
                                Option<WorldError>,
                            >(Some(e)));
                            lemma_switches_stick(w0, fs@, t0, i + 1, fs@.len() as int);
                        }
                        return Err(e);
                    },
                };
                let recipe = self.firms.get(&to).unwrap().recipe().get();
                if vacancy != 0 && self.recipe_minimum_education.contains_key(&recipe) {
                    match self.best_switch_of(to, &touched) {
                        Err(e) => {
                            proof {
                                assert(switch_turn(self@, to, touched@.dom()) == Err::<
                                    Option<(WorldView, EmploymentSwitch)>,
                                    Option<WorldError>,
                                >(Some(e)));
                                lemma_switches_stick(w0, fs@, t0, i + 1, fs@.len() as int);
                            }
                            return Err(e);
                        },
                        Ok(None) => {},
                        Ok(Some(s)) => {
                            let ghost before = self@;
                            proof {
                                if switch_error(before, s) is None && !agreement_fits(
                                    WorldView { employment_agreements: switch_released(before, s), ..before },
                                    switch_new_agreement(s),
                                ) {
                                    lemma_switches_stick(w0, fs@, t0, i + 1, fs@.len() as int);
                                }
                            }
                            match self.switch_employment_worker(s) {
                                Ok(()) => {
                                    let ghost t_before = touched@.dom();
                                    ss.push(s);
                                    touched.insert(s.from_firm.get(), true);
                                    touched.insert(s.to_firm.get(), true);
                                    proof {
                                        assert(touched@.dom() =~= t_before.insert(s.from_firm@).insert(s.to_firm@));
                                    }
                                },
                                Err(e) => {
                                    proof {
                                        assert(switch_turn(before, to, touched@.dom()) == Err::<
                                            Option<(WorldView, EmploymentSwitch)>,
                                            Option<WorldError>,
                                        >(Some(e)));
                                        lemma_switches_stick(w0, fs@, t0, i + 1, fs@.len() as int);
                                    }
                                    return Err(e);
                                },
                            }
                        },
                    }
                }
            }
            i = i + 1;
        }
        proof {
            assert(fs@.take(fs@.len() as int) =~= fs@);
        }
        Ok(ss)
    }
}

/// Whether firm `f`'s recipe has a configured education.
pub open spec fn configured(v: WorldView, f: u32) -> bool {
    v.recipe_minimum_education.contains_key(v.firms[f].spec_recipe()@)
}

/// The regions with a firm of a configured recipe among the firms `fs`.
pub open spec fn labor_regions(v: WorldView, fs: Seq<u32>) -> Map<u32, bool>
    decreases fs.len(),
{
    if fs.len() == 0 {
        Map::empty()
    } else {
        let m = labor_regions(v, fs.drop_last());
        let f = fs.last();
        if configured(v, f) {
            m.insert(v.firms[f].spec_region()@, true)
        } else {
            m
        }
    }
}

/// Whether one of the firms `fs` is a configured firm of region `r` needing education
/// rank `k`.
pub open spec fn level_present(v: WorldView, r: u32, k: int, fs: Seq<u32>) -> bool
    decreases fs.len(),
{
    if fs.len() == 0 {
        false
    } else {
        let f = fs.last();
        level_present(v, r, k, fs.drop_last()) || (configured(v, f) && v.firms[f].spec_region()@ == r
            && education_rank(v.recipe_minimum_education[v.firms[f].spec_recipe()@]) == k)
    }
}

/// The education level of rank `k`.
pub open spec fn level_of(k: int) -> EducationLevel {
    if k <= 0 {
        EducationLevel::NoSchooling
    } else if k == 1 {
        EducationLevel::Basic
    } else if k == 2 {
        EducationLevel::Secondary
    } else if k == 3 {
        EducationLevel::Vocational
    } else {
        EducationLevel::Tertiary
    }
}

/// The free workers of the unemployed cohorts `ks` of region `r` with education rank at
/// least `rank` that are not in training.
pub open spec fn pool(v: WorldView, r: u32, rank: int, ks: Seq<u32>) -> int
    decreases ks.len(),
{
    if ks.len() == 0 {
        0
    } else {
        let k = ks.last();
        let c = v.cohorts[k];
        pool(v, r, rank, ks.drop_last()) + if c.region@ == r && c.employment == EmploymentStatus::Unemployed
            && education_rank(c.education) >= rank && !v.workforce_training.contains_key(k) {
            available_workers(v, k)
        } else {
            0
        }
    }
}

/// The vacancies of the configured firms `fs` of region `r` (of those needing education
/// rank `rank`, where given), summed in turn; a vacancy error or a sum beyond `u64`
/// stops it.
pub open spec fn vacancy_sum(v: WorldView, r: u32, rank: Option<int>, fs: Seq<u32>) -> Result<int, WorldError>
    decreases fs.len(),
{
    if fs.len() == 0 {
        Ok(0)
    } else {
        match vacancy_sum(v, r, rank, fs.drop_last()) {
            Err(e) => Err(e),
            Ok(acc) => {
                let f = fs.last();
                let firm = v.firms[f];
                if firm.spec_region()@ == r && configured(v, f) && (rank matches Some(k) ==> education_rank(
                    v.recipe_minimum_education[firm.spec_recipe()@],
                ) == k) {
                    match labor_vacancy(v, FirmId(f)) {
                        Err(e) => Err(e),
                        Ok(n) => if acc + n > u64::MAX {
                            Err(
                                WorldError::ArithmeticOverflow(
                                    if rank is None {
                                        "regional labor vacancies"
                                    } else {
                                        "skill labor vacancies"
                                    },
                                ),
                            )
                        } else {
                            Ok(acc + n)
                        },
                    }
                } else {
                    Ok(acc)
                }
            },
        }
    }
}

/// The number and the summed wages of the offers `s` of firms of region `r`.
pub open spec fn offers_in(v: WorldView, s: Seq<EmploymentMatch>, r: u32) -> (int, int)
    decreases s.len(),
{
    if s.len() == 0 {
        (0, 0)
    } else {
        let (n, m) = offers_in(v, s.drop_last(), r);
        if v.firms.contains_key(s.last().firm@) && v.firms[s.last().firm@].spec_region()@ == r {
            (n + 1, m + s.last().wage@)
        } else {
            (n, m)
        }
    }
}

/// The number and the summed offered wages of the switches `s` to firms of region `r`.
pub open spec fn switches_in(v: WorldView, s: Seq<EmploymentSwitch>, r: u32) -> (int, int)
    decreases s.len(),
{
    if s.len() == 0 {
        (0, 0)
    } else {
        let (n, m) = switches_in(v, s.drop_last(), r);
        if v.firms.contains_key(s.last().to_firm@) && v.firms[s.last().to_firm@].spec_region()@ == r {
            (n + 1, m + s.last().offered_wage@)
        } else {
            (n, m)
        }
    }
}

/// A pressure streak: one month longer (saturating) while the pressure holds, starting
/// at one without an earlier observation, and zero once it lifts.
pub open spec fn streak_months(present: bool, previous: u8, active: bool) -> u8 {
    if !active {
        0
    } else if !present {
        1
    } else if previous == u8::MAX {
        u8::MAX
    } else {
        (previous + 1) as u8
    }
}

/// Region `r`'s labor-market evidence of the month: its free unemployed workers, its
/// configured vacancies, the month's offers and switches to its firms, its hires and
/// their average wage, and the pressure streaks, recorded; `Err(None)` where the free
/// workers exceed `u64`.
pub open spec fn labor_observation(
    v: WorldView,
    r: u32,
    offers: Seq<EmploymentMatch>,
    ms: Seq<EmploymentMatch>,
    ss: Seq<EmploymentSwitch>,
) -> Result<WorldView, Option<WorldError>> {
    let avail = pool(v, r, 0, key_order(v.cohorts));
    if avail > u64::MAX {
        Err(None)
    } else {
        match vacancy_sum(v, r, None, key_order(v.firms)) {
            Err(e) => Err(Some(e)),
            Ok(vac) => {
                let (oc, ow) = offers_in(v, offers, r);
                let (sc, sw) = switches_in(v, ss, r);
                let count = oc + sc;
                let hires = offers_in(v, ms, r).0 + sc;
                let avg = if count == 0 {
                    0
                } else {
                    tdiv(ow + sw, count)
                };
                if avg > i64::MAX || avg < i64::MIN {
                    Err(Some(WorldError::ArithmeticOverflow("average labor offer wage")))
                } else {
                    let present = v.regional_labor_market.contains_key(r);
                    let prev = v.regional_labor_market[r];
                    let up = streak_months(present, prev.unemployment_pressure_months, avail > vac);
                    let vp = streak_months(present, prev.vacancy_pressure_months, vac > avail);
                    let obs = RegionalLaborMarketObservation {
                        region: RegionId(r),
                        available_workers: avail as u64,
                        vacancies: vac as u64,
                        offers: count as u64,
                        hires: hires as u64,
                        average_offered_wage: Money::spec_from(avg as i64),
                        unemployment_pressure_months: up,
                        vacancy_pressure_months: vp,
                    };
                    Ok(
                        WorldView {
                            regional_labor_market: v.regional_labor_market.insert(r, obs),
                            events: v.events.push(
                                EventEnvelope {
                                    date: v.date,
                                    event: DomainEvent::RegionalLaborMarketObserved {
                                        region: RegionId(r),
                                        available_workers: avail as u64,
                                        vacancies: vac as u64,
                                        offers: count as u64,
                                        hires: hires as u64,
                                        average_offered_wage: Money::spec_from(avg as i64),
                                        unemployment_pressure_months: up,
                                        vacancy_pressure_months: vp,
                                    },
                                },
                            ),
                            ..v
                        },
                    )
                }
            },
        }
    }
}

/// Region `r`'s qualified-labor evidence for education rank `k`, where a configured
/// firm there needs it: the qualified free workers, the vacancies, and the streaks,
/// recorded; `Err(None)` where the workers exceed `u64`.
pub open spec fn skill_observation(v: WorldView, r: u32, k: int) -> Result<WorldView, Option<WorldError>> {
    if !level_present(v, r, k, key_order(v.firms)) {
        Ok(v)
    } else {
        let q = pool(v, r, k, key_order(v.cohorts));
        if q > u64::MAX {
            Err(None)
        } else {
            match vacancy_sum(v, r, Some(k), key_order(v.firms)) {
                Err(e) => Err(Some(e)),
                Ok(vac) => {
                    let key = (r, k as u32);
                    let present = v.regional_skill_labor_market.contains_key(key);
                    let prev = v.regional_skill_labor_market[key];
                    let up = streak_months(present, prev.unemployment_pressure_months, q > vac);
                    let vp = streak_months(present, prev.vacancy_pressure_months, vac > q);
                    let obs = RegionalSkillLaborMarketObservation {
                        region: RegionId(r),
                        minimum_education: level_of(k),
                        qualified_available_workers: q as u64,
                        vacancies: vac as u64,
                        unemployment_pressure_months: up,
                        vacancy_pressure_months: vp,
                    };
                    Ok(
                        WorldView {
                            regional_skill_labor_market: v.regional_skill_labor_market.insert(key, obs),
                            events: v.events.push(
                                EventEnvelope {
                                    date: v.date,
                                    event: DomainEvent::RegionalSkillLaborMarketObserved {
                                        region: RegionId(r),
                                        minimum_education: level_of(k),
                                        qualified_available_workers: q as u64,
                                        vacancies: vac as u64,
                                        unemployment_pressure_months: up,
                                        vacancy_pressure_months: vp,
                                    },
                                },
                            ),
                            ..v
                        },
                    )
                },
            }
        }
    }
}

/// Region `r`'s qualified-labor evidence for the education ranks below `n`, in turn.
pub open spec fn skills_run(v: WorldView, r: u32, n: nat) -> Result<WorldView, Option<WorldError>>
    decreases n,
{
    if n == 0 {
        Ok(v)
    } else {
        match skills_run(v, r, (n - 1) as nat) {
            Err(e) => Err(e),
            Ok(v1) => skill_observation(v1, r, n - 1),
        }
    }
}

/// The labor-market evidence of the regions `rs`, in turn: each region's market, then
/// its qualified markets by rising education.
pub open spec fn observe_run(
    v: WorldView,
    rs: Seq<u32>,
    offers: Seq<EmploymentMatch>,
    ms: Seq<EmploymentMatch>,
    ss: Seq<EmploymentSwitch>,
) -> Result<WorldView, Option<WorldError>>
    decreases rs.len(),
{
    if rs.len() == 0 {
        Ok(v)
    } else {
        match observe_run(v, rs.drop_last(), offers, ms, ss) {
            Err(e) => Err(e),
            Ok(v1) => match labor_observation(v1, rs.last(), offers, ms, ss) {
                Err(e) => Err(e),
                Ok(v2) => skills_run(v2, rs.last(), 5),
            },
        }
    }
}

/// A rank given as a machine integer, as a mathematical one.
pub open spec fn rank_opt(o: Option<u32>) -> Option<int> {
    match o {
        Some(k) => Some(k as int),
        None => None,
    }
}

proof fn lemma_vacancy_sum_sticks(v: WorldView, r: u32, rank: Option<int>, s: Seq<u32>, k: int, n: int)
    requires
        0 <= k <= n <= s.len(),
        vacancy_sum(v, r, rank, s.take(k)) is Err,
    ensures
        vacancy_sum(v, r, rank, s.take(n)) == vacancy_sum(v, r, rank, s.take(k)),
    decreases n - k,
{
    if k < n {
        lemma_vacancy_sum_sticks(v, r, rank, s, k, n - 1);
        assert(s.take(n).drop_last() =~= s.take(n - 1));
    }
}

proof fn lemma_skills_stick(v: WorldView, r: u32, k: nat, n: nat)
    requires
        k <= n,
        skills_run(v, r, k) is Err,
    ensures
        skills_run(v, r, n) == skills_run(v, r, k),
    decreases n - k,
{
    if k < n {
        lemma_skills_stick(v, r, k, (n - 1) as nat);
    }
}

proof fn lemma_observe_sticks(
    v: WorldView,
    rs: Seq<u32>,
    offers: Seq<EmploymentMatch>,
    ms: Seq<EmploymentMatch>,
    ss: Seq<EmploymentSwitch>,
    k: int,
    n: int,
)
    requires
        0 <= k <= n <= rs.len(),
        observe_run(v, rs.take(k), offers, ms, ss) is Err,
    ensures
        observe_run(v, rs.take(n), offers, ms, ss) == observe_run(v, rs.take(k), offers, ms, ss),
    decreases n - k,
{
    if k < n {
        lemma_observe_sticks(v, rs, offers, ms, ss, k, n - 1);
        assert(rs.take(n).drop_last() =~= rs.take(n - 1));
    }
}

/// The education level of rank `k` (see `level_of`).
fn level_of_rank(k: u32) -> (r: EducationLevel)
    ensures
        r == level_of(k as int),
{
    if k == 0 {
        EducationLevel::NoSchooling
    } else if k == 1 {
        EducationLevel::Basic
    } else if k == 2 {
        EducationLevel::Secondary
    } else if k == 3 {
        EducationLevel::Vocational
    } else {
        EducationLevel::Tertiary
    }
}

/// A pressure streak (see `streak_months`).
fn streak_of(present: bool, previous: u8, active: bool) -> (r: u8)
    ensures
        r == streak_months(present, previous, active),
{
    if !active {
        0
    } else if !present {
        1
    } else {
        previous.saturating_add(1)
    }
}

impl World {
    /// The free workers of a region's unemployed cohorts (see `pool`).
    fn pool_of(&self, r: u32, rank: u32) -> (t: u128)
        ensures
            t as int == pool(self@, r, rank as int, key_order(self@.cohorts)),
    {
        let ks = keys_in_order(&self.cohorts);
        let mut total: u128 = 0;
        let mut i: usize = 0;
        proof {
            assert(ks@.take(0) =~= Seq::<u32>::empty());
        }
        while i < ks.len()
            invariant
                ks@ == key_order(self@.cohorts),
                forall|j: int| 0 <= j < ks@.len() ==> self@.cohorts.contains_key(#[trigger] ks@[j]),
                i <= ks.len(),
                total as int == pool(self@, r, rank as int, ks@.take(i as int)),
                total <= i * 0xffff_ffff_ffff_ffffu128,
            decreases ks.len() - i,
        {
            let k = ks[i];
            proof {
                assert(ks@.take(i + 1).drop_last() =~= ks@.take(i as int));
                assert(ks@.take(i + 1).last() == k);
            }
            let c = *self.cohorts.get(&k).unwrap();
            if c.region.get() == r && c.employment == EmploymentStatus::Unemployed && education_rank_of(c.education)
                >= rank && !self.workforce_training.contains_key(&k) {
                total = total + self.available_workers_of(k) as u128;
            }
            i = i + 1;
        }
        proof {
            assert(ks@.take(ks@.len() as int) =~= ks@);
        }
        total
    }

    /// The vacancies of a region's configured firms (see `vacancy_sum`).
    fn vacancy_sum_of(&self, r: u32, rank: Option<u32>) -> (res: Result<u64, WorldError>)
        ensures
            match vacancy_sum(self@, r, rank_opt(rank), key_order(self@.firms)) {
                Err(e) => res == Err::<u64, WorldError>(e),
                Ok(n) => res matches Ok(x) && x as int == n,
            },
    {
        let fs = keys_in_order(&self.firms);
        let ghost rk = rank_opt(rank);
        let mut acc: u64 = 0;
        let mut i: usize = 0;
        proof {
            assert(fs@.take(0) =~= Seq::<u32>::empty());
        }
        while i < fs.len()
            invariant
                fs@ == key_order(self@.firms),
                forall|j: int| 0 <= j < fs@.len() ==> self@.firms.contains_key(#[trigger] fs@[j]),
                rk == rank_opt(rank),
                i <= fs.len(),
                vacancy_sum(self@, r, rk, fs@.take(i as int)) == Ok::<int, WorldError>(acc as int),
            decreases fs.len() - i,
        {
            let f = fs[i];
            proof {
                assert(fs@.take(i + 1).drop_last() =~= fs@.take(i as int));
                assert(fs@.take(i + 1).last() == f);
            }
            let firm = self.firms.get(&f).unwrap();
            let recipe = firm.recipe().get();
            let counted = if firm.region().get() == r {
                match self.recipe_minimum_education.get(&recipe) {
                    None => false,
                    Some(m) => match rank {
                        None => true,
                        Some(k) => education_rank_of(*m) == k,
                    },
                }
            } else {
                false
            };
            if counted {
                let n = match self.labor_vacancy_of(FirmId(f)) {
                    Ok(n) => n,
                    Err(e) => {
                        proof {
                            lemma_vacancy_sum_sticks(self@, r, rk, fs@, i + 1, fs@.len() as int);
                            assert(fs@.take(fs@.len() as int) =~= fs@);
                        }
                        return Err(e);
                    },
                };
                if acc as u128 + n as u128 > u64::MAX as u128 {
                    proof {
                        lemma_vacancy_sum_sticks(self@, r, rk, fs@, i + 1, fs@.len() as int);
                        assert(fs@.take(fs@.len() as int) =~= fs@);
                    }
                    return Err(
                        WorldError::ArithmeticOverflow(
                            if rank.is_none() {
                                "regional labor vacancies"
                            } else {
                                "skill labor vacancies"
                            },
                        ),
                    );
                }
                acc = acc + n;
            }
            i = i + 1;
        }
        proof {
            assert(fs@.take(fs@.len() as int) =~= fs@);
        }
        Ok(acc)
    }

    /// The number and wages of a region's offers (see `offers_in`).
    fn offers_in_of(&self, s: &Vec<EmploymentMatch>, r: u32) -> (res: (u64, i128))
        requires
            s@.len() <= 0x1_0000_0000,
        ensures
            res.0 as int == offers_in(self@, s@, r).0,
            res.1 as int == offers_in(self@, s@, r).1,
            0 <= res.0 <= 0x1_0000_0000,
            -0x1_0000_0000 * 0x8000_0000_0000_0000 <= res.1 <= 0x1_0000_0000 * 0x8000_0000_0000_0000,
    {
        let mut n: u64 = 0;
        let mut m: i128 = 0;
        let mut i: usize = 0;
        proof {
            assert(s@.take(0) =~= Seq::<EmploymentMatch>::empty());
        }
        while i < s.len()
            invariant
                s@.len() <= 0x1_0000_0000,
                i <= s.len(),
                n as int == offers_in(self@, s@.take(i as int), r).0,
                m as int == offers_in(self@, s@.take(i as int), r).1,
                n <= i,
                -(i as int) * 0x8000_0000_0000_0000 <= m <= (i as int) * 0x8000_0000_0000_0000,
            decreases s.len() - i,
        {
            let o = s[i];
            proof {
                assert(s@.take(i + 1).drop_last() =~= s@.take(i as int));
                assert(s@.take(i + 1).last() == o);
            }
            let here = match self.firms.get(&o.firm.get()) {
                Some(f) => f.region().get() == r,
                None => false,
            };
            if here {
                n = n + 1;
                m = m + o.wage.minor_units() as i128;
            }
            i = i + 1;
        }
        proof {
            assert(s@.take(s@.len() as int) =~= s@);
        }
        (n, m)
    }

    /// The number and offered wages of a region's switches (see `switches_in`).
    fn switches_in_of(&self, s: &Vec<EmploymentSwitch>, r: u32) -> (res: (u64, i128))
        requires
            s@.len() <= 0x1_0000_0000,
        ensures
            res.0 as int == switches_in(self@, s@, r).0,
            res.1 as int == switches_in(self@, s@, r).1,
            0 <= res.0 <= 0x1_0000_0000,
            -0x1_0000_0000 * 0x8000_0000_0000_0000 <= res.1 <= 0x1_0000_0000 * 0x8000_0000_0000_0000,
    {
        let mut n: u64 = 0;
        let mut m: i128 = 0;
        let mut i: usize = 0;
        proof {
            assert(s@.take(0) =~= Seq::<EmploymentSwitch>::empty());
        }
        while i < s.len()
            invariant
                s@.len() <= 0x1_0000_0000,
                i <= s.len(),
                n as int == switches_in(self@, s@.take(i as int), r).0,
                m as int == switches_in(self@, s@.take(i as int), r).1,
                n <= i,
                -(i as int) * 0x8000_0000_0000_0000 <= m <= (i as int) * 0x8000_0000_0000_0000,
            decreases s.len() - i,
        {
            let o = s[i];
            proof {
                assert(s@.take(i + 1).drop_last() =~= s@.take(i as int));
                assert(s@.take(i + 1).last() == o);
            }
            let here = match self.firms.get(&o.to_firm.get()) {
                Some(f) => f.region().get() == r,
                None => false,
            };
            if here {
                n = n + 1;
                m = m + o.offered_wage.minor_units() as i128;
            }
            i = i + 1;
        }
        proof {
            assert(s@.take(s@.len() as int) =~= s@);
        }
        (n, m)
    }

    /// The regions with a configured firm (see `labor_regions`).
    fn labor_regions_of(&self) -> (m: BTreeMap<u32, bool>)
        ensures
            m@ == labor_regions(self@, key_order(self@.firms)),
    {
        let fs = keys_in_order(&self.firms);
        let mut m: BTreeMap<u32, bool> = BTreeMap::new();
        let mut i: usize = 0;
        proof {
            assert(fs@.take(0) =~= Seq::<u32>::empty());
        }
        while i < fs.len()
            invariant
                fs@ == key_order(self@.firms),
                forall|j: int| 0 <= j < fs@.len() ==> self@.firms.contains_key(#[trigger] fs@[j]),
                i <= fs.len(),
                m@ == labor_regions(self@, fs@.take(i as int)),
            decreases fs.len() - i,
        {
            let f = fs[i];
            proof {
                assert(fs@.take(i + 1).drop_last() =~= fs@.take(i as int));
                assert(fs@.take(i + 1).last() == f);
            }
            let firm = self.firms.get(&f).unwrap();
            if self.recipe_minimum_education.contains_key(&firm.recipe().get()) {
                m.insert(firm.region().get(), true);
            }
            i = i + 1;
        }
        proof {
            assert(fs@.take(fs@.len() as int) =~= fs@);
        }
        m
    }

    /// Whether a region has a configured firm needing an education rank (see
    /// `level_present`).
    fn level_present_of(&self, r: u32, k: u32) -> (b: bool)
        ensures
            b == level_present(self@, r, k as int, key_order(self@.firms)),
    {
        let fs = keys_in_order(&self.firms);
        let mut found = false;
        let mut i: usize = 0;
        proof {
            assert(fs@.take(0) =~= Seq::<u32>::empty());
        }
        while i < fs.len()
            invariant
                fs@ == key_order(self@.firms),
                forall|j: int| 0 <= j < fs@.len() ==> self@.firms.contains_key(#[trigger] fs@[j]),
                i <= fs.len(),
                found == level_present(self@, r, k as int, fs@.take(i as int)),
            decreases fs.len() - i,
        {
            let f = fs[i];
            proof {
                assert(fs@.take(i + 1).drop_last() =~= fs@.take(i as int));
                assert(fs@.take(i + 1).last() == f);
            }
            let firm = self.firms.get(&f).unwrap();
            if firm.region().get() == r {
                match self.recipe_minimum_education.get(&firm.recipe().get()) {
                    Some(m) => {
                        if education_rank_of(*m) == k {
                            found = true;
                        }
                    },
                    None => {},
                }
            }
            i = i + 1;
        }
        proof {
            assert(fs@.take(fs@.len() as int) =~= fs@);
        }
        found
    }

    /// Records a region's labor-market evidence (see `labor_observation`).
    fn observe_labor_region(
        &mut self,
        r: u32,
        offers: &Vec<EmploymentMatch>,
        ms: &Vec<EmploymentMatch>,
        ss: &Vec<EmploymentSwitch>,
    ) -> (res: Result<(), WorldError>)
        requires
            offers@.len() <= 0x1_0000_0000,
            ms@.len() <= 0x1_0000_0000,
            ss@.len() <= 0x1_0000_0000,
            !(labor_observation(old(self)@, r, offers@, ms@, ss@) matches Err(None)),
        ensures
            match labor_observation(old(self)@, r, offers@, ms@, ss@) {
                Err(e) => res == Err::<(), WorldError>(e->Some_0) && final(self)@ == old(self)@,
                Ok(v2) => res is Ok && final(self)@ == v2,
            },
            labor_frame(old(self)@, final(self)@),
    {
        let avail = self.pool_of(r, 0);
        let vac = match self.vacancy_sum_of(r, None) {
            Ok(n) => n,
            Err(e) => {
                return Err(e);
            },
        };
        let (oc, ow) = self.offers_in_of(offers, r);
        let (sc, sw) = self.switches_in_of(ss, r);
        let (mc, _) = self.offers_in_of(ms, r);
        let count: u64 = oc + sc;
        let hires: u64 = mc + sc;
        let wages: i128 = ow + sw;
        let avg: i128 = if count == 0 {
            0
        } else if wages >= 0 {
            wages / count as i128
        } else {
            -((-wages) / count as i128)
        };
        proof {
            assert(avg as int == (if count == 0 {
                0
            } else {
                tdiv(ow + sw, count as int)
            }));
        }
        if avg > i64::MAX as i128 || avg < i64::MIN as i128 {
            return Err(WorldError::ArithmeticOverflow("average labor offer wage"));
        }
        let avail64 = avail as u64;
        let (present, prev_u, prev_v) = match self.regional_labor_market.get(&r) {
            Some(p) => (true, p.unemployment_pressure_months, p.vacancy_pressure_months),
            None => (false, 0u8, 0u8),
        };
        let up = streak_of(present, prev_u, avail64 > vac);
        let vp = streak_of(present, prev_v, vac > avail64);
        let wage = Money::from_minor_units(avg as i64);
        let obs = RegionalLaborMarketObservation {
            region: RegionId(r),
            available_workers: avail64,
            vacancies: vac,
            offers: count,
            hires,
            average_offered_wage: wage,
            unemployment_pressure_months: up,
            vacancy_pressure_months: vp,
        };
        self.regional_labor_market.insert(r, obs);
        self.events.append(
            self.date,
            DomainEvent::RegionalLaborMarketObserved {
                region: RegionId(r),
                available_workers: avail64,
                vacancies: vac,
                offers: count,
                hires,
                average_offered_wage: wage,
                unemployment_pressure_months: up,
                vacancy_pressure_months: vp,
            },
        );
        Ok(())
    }

    /// Records a region's qualified-labor evidence for an education rank (see
    /// `skill_observation`).
    fn observe_skill_level(&mut self, r: u32, k: u32) -> (res: Result<(), WorldError>)
        requires
            k < 5,
            !(skill_observation(old(self)@, r, k as int) matches Err(None)),
        ensures
            match skill_observation(old(self)@, r, k as int) {
                Err(e) => res == Err::<(), WorldError>(e->Some_0) && final(self)@ == old(self)@,
                Ok(v2) => res is Ok && final(self)@ == v2,
            },
            labor_frame(old(self)@, final(self)@),
    {
        if !self.level_present_of(r, k) {
            return Ok(());
        }
        let q = self.pool_of(r, k);
        let vac = match self.vacancy_sum_of(r, Some(k)) {
            Ok(n) => n,
            Err(e) => {
                return Err(e);
            },
        };
        let q64 = q as u64;
        let key = (r, k);
        let (present, prev_u, prev_v) = match self.regional_skill_labor_market.get(&key) {
            Some(p) => (true, p.unemployment_pressure_months, p.vacancy_pressure_months),
            None => (false, 0u8, 0u8),
        };
        let up = streak_of(present, prev_u, q64 > vac);
        let vp = streak_of(present, prev_v, vac > q64);
        let level = level_of_rank(k);
        let obs = RegionalSkillLaborMarketObservation {
            region: RegionId(r),
            minimum_education: level,
            qualified_available_workers: q64,
            vacancies: vac,
            unemployment_pressure_months: up,
            vacancy_pressure_months: vp,
        };
        self.regional_skill_labor_market.insert(key, obs);
        self.events.append(
            self.date,
            DomainEvent::RegionalSkillLaborMarketObserved {
                region: RegionId(r),
                minimum_education: level,
                qualified_available_workers: q64,
                vacancies: vac,
                unemployment_pressure_months: up,
                vacancy_pressure_months: vp,
            },
        );
        Ok(())
    }

    /// Records the month's labor-market evidence of every region with a configured firm
    /// (see `observe_run`).
    fn run_observations(
        &mut self,
        offers: &Vec<EmploymentMatch>,
        ms: &Vec<EmploymentMatch>,
        ss: &Vec<EmploymentSwitch>,
    ) -> (res: Result<(), WorldError>)
        requires
            offers@.len() <= 0x1_0000_0000,
            ms@.len() <= 0x1_0000_0000,
            ss@.len() <= 0x1_0000_0000,
            !(observe_run(
                old(self)@,
                key_order(labor_regions(old(self)@, key_order(old(self)@.firms))),
                offers@,
                ms@,
                ss@,
            ) matches Err(None)),
        ensures
            match observe_run(
                old(self)@,
                key_order(labor_regions(old(self)@, key_order(old(self)@.firms))),
                offers@,
                ms@,
                ss@,
            ) {
                Err(e) => res == Err::<(), WorldError>(e->Some_0),
                Ok(v2) => res is Ok && final(self)@ == v2,
            },
            labor_frame(old(self)@, final(self)@),
    {
        let ghost w0 = self@;
        let regions = self.labor_regions_of();
        let rs = keys_in_order(&regions);
        let mut i: usize = 0;
        proof {
            assert(rs@.take(0) =~= Seq::<u32>::empty());
        }
        while i < rs.len()
            invariant
                w0 == old(self)@,
                labor_frame(w0, self@),
                rs@ == key_order(labor_regions(w0, key_order(w0.firms))),
                offers@.len() <= 0x1_0000_0000,
                ms@.len() <= 0x1_0000_0000,
                ss@.len() <= 0x1_0000_0000,
                i <= rs.len(),
                !(observe_run(w0, rs@, offers@, ms@, ss@) matches Err(None)),
                observe_run(w0, rs@.take(i as int), offers@, ms@, ss@) == Ok::<WorldView, Option<WorldError>>(
                    self@,
                ),
            decreases rs.len() - i,
        {
            let r = rs[i];
            let ghost v1 = self@;
            proof {
                assert(rs@.take(i + 1).drop_last() =~= rs@.take(i as int));
                assert(rs@.take(i + 1).last() == r);
                assert(rs@.take(rs@.len() as int) =~= rs@);
                if labor_observation(v1, r, offers@, ms@, ss@) is Err {
                    lemma_observe_sticks(w0, rs@, offers@, ms@, ss@, i + 1, rs@.len() as int);
                }
            }
            match self.observe_labor_region(r, offers, ms, ss) {
                Err(e) => {
                    return Err(e);
                },
                Ok(()) => {},
            }
            let ghost v2 = self@;
            let mut k: u32 = 0;
            while k < 5
                invariant
                    w0 == old(self)@,
                    labor_frame(w0, self@),
                    rs@ == key_order(labor_regions(w0, key_order(w0.firms))),
                    offers@.len() <= 0x1_0000_0000,
                    ms@.len() <= 0x1_0000_0000,
                    ss@.len() <= 0x1_0000_0000,
                    i < rs.len(),
                    r == rs@[i as int],
                    k <= 5,
                    !(observe_run(w0, rs@, offers@, ms@, ss@) matches Err(None)),
                    observe_run(w0, rs@.take(i as int), offers@, ms@, ss@) == Ok::<WorldView, Option<WorldError>>(v1),
                    labor_observation(v1, r, offers@, ms@, ss@) == Ok::<WorldView, Option<WorldError>>(v2),
                    skills_run(v2, r, k as nat) == Ok::<WorldView, Option<WorldError>>(self@),
                decreases 5 - k,
            {
                proof {
                    assert(rs@.take(i + 1).drop_last() =~= rs@.take(i as int));
                    assert(rs@.take(i + 1).last() == r);
                    assert(rs@.take(rs@.len() as int) =~= rs@);
                    if skill_observation(self@, r, k as int) is Err {
                        assert(skills_run(v2, r, (k + 1) as nat) == skill_observation(self@, r, k as int));
                        lemma_skills_stick(v2, r, (k + 1) as nat, 5);
                        lemma_observe_sticks(w0, rs@, offers@, ms@, ss@, i + 1, rs@.len() as int);
                    }
                }
                match self.observe_skill_level(r, k) {
                    Err(e) => {
                        return Err(e);
                    },
                    Ok(()) => {},
                }
                k = k + 1;
            }
            proof {
                assert(rs@.take(i + 1).drop_last() =~= rs@.take(i as int));
                assert(rs@.take(i + 1).last() == r);
            }
            i = i + 1;
        }
        proof {
            assert(rs@.take(rs@.len() as int) =~= rs@);
        }
        Ok(())
    }
}

/// Whether a qualified-labor observation shows a shortage worth training for: six months
/// of vacancy pressure and open vacancies.
pub open spec fn is_shortage(row: RegionalSkillLaborMarketObservation) -> bool {
    row.vacancy_pressure_months >= 6 && row.vacancies > 0
}

/// The members of a cohort that one trainee household holds (rounded up).
pub open spec fn trainees(c: HouseholdCohort) -> int {
    if c.households > 1 {
        household_size(c)
    } else {
        c.people@ as int
    }
}

/// The trainee household's share of an amount of the cohort (none of an empty cohort).
pub open spec fn trainee_share(c: HouseholdCohort, amount: int) -> int {
    if c.people@ == 0 {
        0
    } else {
        people_share(amount, trainees(c), c.people@ as int)
    }
}

/// A month of the trainee household's income, at least one minor unit.
pub open spec fn tuition(c: HouseholdCohort) -> int {
    let t = tdiv(trainee_share(c, c.annual_income@ as int), 12);
    if t > 1 {
        t
    } else {
        1
    }
}

/// Whether cohort `c` can train for the shortage `row`: an unemployed cohort of its
/// region below the education it needs, not in training, with a free worker, whose next
/// level does not pass the one needed.
pub open spec fn trainable(v: WorldView, c: u32, row: RegionalSkillLaborMarketObservation) -> bool {
    let k = v.cohorts[c];
    &&& k.region == row.region
    &&& k.employment == EmploymentStatus::Unemployed
    &&& education_rank(k.education) + 1 <= education_rank(row.minimum_education)
    &&& !v.workforce_training.contains_key(c)
    &&& available_workers(v, c) > 0
}

/// The first vacancy error among the firms `fs` of the shortage's region whose recipe
/// needs its education: the firms a trainee that cannot pay would turn to (none of which
/// this library can find solvent to sponsor, as it records no firm's expectations).
pub open spec fn sponsor_error(v: WorldView, row: RegionalSkillLaborMarketObservation, fs: Seq<u32>) -> Option<
    WorldError,
>
    decreases fs.len(),
{
    if fs.len() == 0 {
        None
    } else {
        match sponsor_error(v, row, fs.drop_last()) {
            Some(e) => Some(e),
            None => {
                let f = v.firms[fs.last()];
                let recipe = f.spec_recipe()@;
                if f.spec_region() == row.region && v.recipe_minimum_education.contains_key(recipe)
                    && v.recipe_minimum_education[recipe] == row.minimum_education {
                    match labor_vacancy(v, FirmId(fs.last())) {
                        Err(e) => Some(e),
                        Ok(_) => None,
                    }
                } else {
                    None
                }
            },
        }
    }
}

/// Whether cohort `c` is a trainee for the shortage `row` whose household pays the
/// tuition; an error where looking for a sponsor fails.
pub open spec fn trainee(v: WorldView, c: u32, row: RegionalSkillLaborMarketObservation) -> Result<bool, WorldError> {
    if !trainable(v, c, row) {
        Ok(false)
    } else if trainee_share(v.cohorts[c], v.cohorts[c].liquid_wealth@ as int) >= tuition(v.cohorts[c]) {
        Ok(true)
    } else {
        match sponsor_error(v, row, key_order(v.firms)) {
            Some(e) => Err(e),
            None => Ok(false),
        }
    }
}

/// The trainee among the cohorts `ks` with the most education, the lowest id among equals.
pub open spec fn best_trainee(v: WorldView, row: RegionalSkillLaborMarketObservation, ks: Seq<u32>) -> Result<
    Option<u32>,
    WorldError,
>
    decreases ks.len(),
{
    if ks.len() == 0 {
        Ok(None)
    } else {
        match best_trainee(v, row, ks.drop_last()) {
            Err(e) => Err(e),
            Ok(b) => match trainee(v, ks.last(), row) {
                Err(e) => Err(e),
                Ok(false) => Ok(b),
                Ok(true) => match b {
                    None => Ok(Some(ks.last())),
                    Some(x) => if education_rank(v.cohorts[ks.last()].education) > education_rank(
                        v.cohorts[x].education,
                    ) {
                        Ok(Some(ks.last()))
                    } else {
                        Ok(Some(x))
                    },
                },
            },
        }
    }
}

/// The cohort that trains: a cohort of one person or one household itself, else one of
/// its households split off as a new cohort under the first free id (see
/// `remaining_cohort` and `migrant_cohort`), recorded; an error where no id is free.
pub open spec fn training_partition(v: WorldView, c: u32) -> Result<(WorldView, u32), WorldError> {
    let k = v.cohorts[c];
    if k.people@ <= 1 || k.households <= 1 {
        Ok((v, c))
    } else {
        let t = first_free_cohort_id(v);
        if v.cohorts.contains_key(t) {
            Err(WorldError::ArithmeticOverflow("training cohort identity"))
        } else {
            let split = migrant_cohort(k, t, k.region, 0);
            Ok(
                (
                    WorldView {
                        cohorts: v.cohorts.insert(c, remaining_cohort(k)).insert(t, split),
                        events: v.events.push(
                            EventEnvelope {
                                date: v.date,
                                event: DomainEvent::HouseholdCohortSplitForTraining {
                                    source_cohort: CohortId(c),
                                    training_cohort: CohortId(t),
                                    people: split.people@,
                                    households: split.households,
                                    annual_income: split.annual_income,
                                    liquid_wealth: split.liquid_wealth,
                                    debt: split.debt,
                                },
                            },
                        ),
                        ..v
                    },
                    t,
                ),
            )
        }
    }
}

/// The shortage `row`'s turn: where its region has not enrolled a cohort this month, its
/// best trainee's household (split off where the cohort is larger) pays a month of its
/// income and starts three months toward the next education level.
pub open spec fn enroll_turn(v: WorldView, row: RegionalSkillLaborMarketObservation, enrolled: Set<u32>) -> Result<
    (WorldView, Set<u32>),
    WorldError,
> {
    if !is_shortage(row) || enrolled.contains(row.region@) {
        Ok((v, enrolled))
    } else {
        match best_trainee(v, row, key_order(v.cohorts)) {
            Err(e) => Err(e),
            Ok(None) => Ok((v, enrolled)),
            Ok(Some(c)) => {
                let k = v.cohorts[c];
                let fee = tuition(k);
                let target = level_of(education_rank(k.education) + 1);
                match training_partition(v, c) {
                    Err(e) => Err(e),
                    Ok((v1, t)) => match wealth_debit(v1.cohorts[t], Money::spec_from(fee as i64)) {
                        Err(e) => Err(e),
                        Ok(paid) => Ok(
                            (
                                WorldView {
                                    cohorts: v1.cohorts.insert(t, paid),
                                    workforce_training: v1.workforce_training.insert(
                                        t,
                                        WorkforceTraining {
                                            cohort: CohortId(t),
                                            previous_education: k.education,
                                            target_education: target,
                                            months_remaining: 3,
                                            tuition_paid: Money::spec_from(fee as i64),
                                            sponsor: TrainingSponsor::Household,
                                        },
                                    ),
                                    events: v1.events.push(
                                        EventEnvelope {
                                            date: v1.date,
                                            event: DomainEvent::WorkforceTrainingStarted {
                                                cohort: CohortId(t),
                                                previous_education: k.education,
                                                target_education: target,
                                                months: 3,
                                                tuition_paid: Money::spec_from(fee as i64),
                                                sponsoring_firm: None,
                                            },
                                        },
                                    ),
                                    ..v1
                                },
                                enrolled.insert(row.region@),
                            ),
                        ),
                    },
                }
            },
        }
    }
}

/// The turns of the qualified-labor observations filed under the keys `ks`, in turn.
pub open spec fn enroll_run(v: WorldView, ks: Seq<(u32, u32)>) -> Result<(WorldView, Set<u32>), WorldError>
    decreases ks.len(),
{
    if ks.len() == 0 {
        Ok((v, Set::empty()))
    } else {
        match enroll_run(v, ks.drop_last()) {
            Err(e) => Err(e),
            Ok((v1, enrolled)) => enroll_turn(v1, v.regional_skill_labor_market[ks.last()], enrolled),
        }
    }
}

/// The world after the month's training enrollment (see `enroll_turn`).
pub open spec fn enrolled(v: WorldView) -> Result<WorldView, WorldError> {
    match enroll_run(v, pair_key_order(v.regional_skill_labor_market)) {
        Err(e) => Err(e),
        Ok((v2, _)) => Ok(v2),
    }
}

proof fn lemma_sponsor_sticks(v: WorldView, row: RegionalSkillLaborMarketObservation, s: Seq<u32>, k: int, n: int)
    requires
        0 <= k <= n <= s.len(),
        sponsor_error(v, row, s.take(k)) is Some,
    ensures
        sponsor_error(v, row, s.take(n)) == sponsor_error(v, row, s.take(k)),
    decreases n - k,
{
    if k < n {
        lemma_sponsor_sticks(v, row, s, k, n - 1);
        assert(s.take(n).drop_last() =~= s.take(n - 1));
    }
}

proof fn lemma_trainee_sticks(v: WorldView, row: RegionalSkillLaborMarketObservation, s: Seq<u32>, k: int, n: int)
    requires
        0 <= k <= n <= s.len(),
        best_trainee(v, row, s.take(k)) is Err,
    ensures
        best_trainee(v, row, s.take(n)) == best_trainee(v, row, s.take(k)),
    decreases n - k,
{
    if k < n {
        lemma_trainee_sticks(v, row, s, k, n - 1);
        assert(s.take(n).drop_last() =~= s.take(n - 1));
    }
}

proof fn lemma_enroll_sticks(v: WorldView, s: Seq<(u32, u32)>, k: int, n: int)
    requires
        0 <= k <= n <= s.len(),
        enroll_run(v, s.take(k)) is Err,
    ensures
        enroll_run(v, s.take(n)) == enroll_run(v, s.take(k)),
    decreases n - k,
{
    if k < n {
        lemma_enroll_sticks(v, s, k, n - 1);
        assert(s.take(n).drop_last() =~= s.take(n - 1));
    }
}

/// The trainee household's share of an amount of a cohort (see `trainee_share`).
fn trainee_share_of(c: &HouseholdCohort, amount: i64) -> (r: i64)
    ensures
        r as int == trainee_share(*c, amount as int),
{
    let people: u64 = c.people.people();
    if people == 0 {
        return 0;
    }
    let part: u64 = if c.households > 1 {
        let m: u64 = ((people as u128 + c.households as u128 - 1) / c.households as u128) as u64;
        proof {
            let p = people as int;
            let h = c.households as int;
            assert(1 <= (p + h - 1) / h <= p) by (nonlinear_arith)
                requires
                    p >= 1,
                    h > 1,
            ;
            assert(m as int == household_size(*c));
        }
        m
    } else {
        people
    };
    share_of(amount, part, people)
}

/// A month of the trainee household's income (see `tuition`).
fn tuition_of(c: &HouseholdCohort) -> (r: i64)
    ensures
        r as int == tuition(*c),
        r >= 1,
{
    let s: i64 = trainee_share_of(c, c.annual_income.minor_units());
    let w: i128 = s as i128;
    let t: i128 = if w >= 0 {
        w / 12
    } else {
        -((-w) / 12)
    };
    proof {
        assert(t as int == tdiv(s as int, 12));
    }
    if t > 1 {
        t as i64
    } else {
        1
    }
}

impl World {
    /// The first vacancy error among the firms a trainee would turn to (see
    /// `sponsor_error`).
    fn sponsor_error_of(&self, row: &RegionalSkillLaborMarketObservation) -> (r: Option<WorldError>)
        ensures
            r == sponsor_error(self@, *row, key_order(self@.firms)),
    {
        let fs = keys_in_order(&self.firms);
        let mut i: usize = 0;
        proof {
            assert(fs@.take(0) =~= Seq::<u32>::empty());
        }
        while i < fs.len()
            invariant
                fs@ == key_order(self@.firms),
                forall|j: int| 0 <= j < fs@.len() ==> self@.firms.contains_key(#[trigger] fs@[j]),
                i <= fs.len(),
                sponsor_error(self@, *row, fs@.take(i as int)) is None,
            decreases fs.len() - i,
        {
            let f = fs[i];
            proof {
                assert(fs@.take(i + 1).drop_last() =~= fs@.take(i as int));
                assert(fs@.take(i + 1).last() == f);
            }
            let firm = self.firms.get(&f).unwrap();
            let recipe = firm.recipe().get();
            let relevant = firm.region() == row.region && match self.recipe_minimum_education.get(&recipe) {
                Some(m) => *m == row.minimum_education,
                None => false,
            };
            if relevant {
                match self.labor_vacancy_of(FirmId(f)) {
                    Err(e) => {
                        proof {
                            lemma_sponsor_sticks(self@, *row, fs@, i + 1, fs@.len() as int);
                            assert(fs@.take(fs@.len() as int) =~= fs@);
                        }
                        return Some(e);
                    },
                    Ok(_) => {},
                }
            }
            i = i + 1;
        }
        proof {
            assert(fs@.take(fs@.len() as int) =~= fs@);
        }
        None
    }

    /// Whether a cohort is a self-paying trainee for a shortage (see `trainee`).
    fn trainee_of(&self, c: u32, row: &RegionalSkillLaborMarketObservation) -> (r: Result<bool, WorldError>)
        requires
            self@.cohorts.contains_key(c),
        ensures
            r == trainee(self@, c, *row),
    {
        let k = *self.cohorts.get(&c).unwrap();
        if !(k.region == row.region && k.employment == EmploymentStatus::Unemployed && education_rank_of(k.education)
            < education_rank_of(row.minimum_education) && !self.workforce_training.contains_key(&c)
            && self.available_workers_of(c) > 0) {
            return Ok(false);
        }
        if trainee_share_of(&k, k.liquid_wealth.minor_units()) >= tuition_of(&k) {
            return Ok(true);
        }
        match self.sponsor_error_of(row) {
            Some(e) => Err(e),
            None => Ok(false),
        }
    }

    /// The best self-paying trainee for a shortage (see `best_trainee`).
    fn best_trainee_of(&self, row: &RegionalSkillLaborMarketObservation) -> (r: Result<Option<u32>, WorldError>)
        ensures
            r == best_trainee(self@, *row, key_order(self@.cohorts)),
            r matches Ok(Some(c)) ==> self@.cohorts.contains_key(c),
    {
        let ks = keys_in_order(&self.cohorts);
        let mut best: Option<u32> = None;
        let mut best_rank: u32 = 0;
        let mut i: usize = 0;
        proof {
            assert(ks@.take(0) =~= Seq::<u32>::empty());
        }
        while i < ks.len()
            invariant
                ks@ == key_order(self@.cohorts),
                forall|j: int| 0 <= j < ks@.len() ==> self@.cohorts.contains_key(#[trigger] ks@[j]),
                i <= ks.len(),
                best_trainee(self@, *row, ks@.take(i as int)) == Ok::<Option<u32>, WorldError>(best),
                best matches Some(x) ==> self@.cohorts.contains_key(x) && best_rank as int == education_rank(
                    self@.cohorts[x].education,
                ),
            decreases ks.len() - i,
        {
            let c = ks[i];
            proof {
                assert(ks@.take(i + 1).drop_last() =~= ks@.take(i as int));
                assert(ks@.take(i + 1).last() == c);
            }
            match self.trainee_of(c, row) {
                Err(e) => {
                    proof {
                        lemma_trainee_sticks(self@, *row, ks@, i + 1, ks@.len() as int);
                        assert(ks@.take(ks@.len() as int) =~= ks@);
                    }
                    return Err(e);
                },
                Ok(false) => {},
                Ok(true) => {
                    let rank = education_rank_of(self.cohorts.get(&c).unwrap().education);
                    match best {
                        None => {
                            best = Some(c);
                            best_rank = rank;
                        },
                        Some(_) => {
                            if rank > best_rank {
                                best = Some(c);
                                best_rank = rank;
                            }
                        },
                    }
                },
            }
            i = i + 1;
        }
        proof {
            assert(ks@.take(ks@.len() as int) =~= ks@);
        }
        Ok(best)
    }

    /// Splits the trainee household off a cohort (see `training_partition`); a refusal
    /// changes nothing.
    fn partition_training_cohort(&mut self, c: u32) -> (r: Result<u32, WorldError>)
        requires
            old(self)@.cohorts.contains_key(c),
        ensures
            match training_partition(old(self)@, c) {
                Err(e) => r == Err::<u32, WorldError>(e) && final(self)@ == old(self)@,
                Ok((v, t)) => r == Ok::<u32, WorldError>(t) && final(self)@ == v,
            },
    {
        let k = *self.cohorts.get(&c).unwrap();
        let people: u64 = k.people.people();
        if people <= 1 || k.households <= 1 {
            return Ok(c);
        }
        let cohort_ids = keys_in_order(&self.cohorts);
        let t: u32 = if cohort_ids.len() == 0 {
            1
        } else {
            let last = cohort_ids[cohort_ids.len() - 1];
            if last < u32::MAX {
                last + 1
            } else {
                last
            }
        };
        proof {
            assert(t == first_free_cohort_id(self@));
        }
        if self.cohorts.contains_key(&t) {
            return Err(WorldError::ArithmeticOverflow("training cohort identity"));
        }
        let m: u64 = ((people as u128 + k.households as u128 - 1) / k.households as u128) as u64;
        proof {
            let p = people as int;
            let h = k.households as int;
            assert(1 <= (p + h - 1) / h <= p) by (nonlinear_arith)
                requires
                    p > 1,
                    h > 1,
            ;
            assert(m as int == household_size(k));
        }
        let wealth_share: i64 = share_of(k.liquid_wealth.minor_units(), m, people);
        let debt_share: i64 = share_of(k.debt.minor_units(), m, people);
        let income_share: i64 = share_of(k.annual_income.minor_units(), m, people);
        let remaining = HouseholdCohort {
            people: Population::new(people - m),
            households: k.households - 1,
            annual_income: Money::from_minor_units(k.annual_income.minor_units() - income_share),
            liquid_wealth: Money::from_minor_units(k.liquid_wealth.minor_units() - wealth_share),
            debt: Money::from_minor_units(k.debt.minor_units() - debt_share),
            ..k
        };
        let split = HouseholdCohort {
            id: CohortId::new(t),
            region: k.region,
            people: Population::new(m),
            households: 1,
            annual_income: Money::from_minor_units(income_share),
            liquid_wealth: Money::from_minor_units(wealth_share - 0),
            debt: Money::from_minor_units(debt_share),
            ..k
        };
        let ghost w = self@;
        self.cohorts.insert(c, remaining);
        self.cohorts.insert(t, split);
        self.events.append(
            self.date,
            DomainEvent::HouseholdCohortSplitForTraining {
                source_cohort: CohortId(c),
                training_cohort: CohortId(t),
                people: m,
                households: 1,
                annual_income: split.annual_income,
                liquid_wealth: split.liquid_wealth,
                debt: split.debt,
            },
        );
        proof {
            assert(remaining == remaining_cohort(k));
            assert(split == migrant_cohort(k, t, k.region, 0));
            assert(self@.cohorts =~= w.cohorts.insert(c, remaining_cohort(k)).insert(t, migrant_cohort(k, t, k.region, 0)));
        }
        Ok(t)
    }

    /// A shortage's enrollment turn (see `enroll_turn`); after an error the world is
    /// left to the caller to discard.
    fn enroll_turn_of(&mut self, row: &RegionalSkillLaborMarketObservation, enrolled: &mut BTreeMap<u32, bool>) -> (r:
        Result<(), WorldError>)
        ensures
            match enroll_turn(old(self)@, *row, old(enrolled)@.dom()) {
                Err(e) => r == Err::<(), WorldError>(e),
                Ok((v, set)) => r is Ok && final(self)@ == v && final(enrolled)@.dom() == set,
            },
            labor_frame(old(self)@, final(self)@),
    {
        if !(row.vacancy_pressure_months >= 6 && row.vacancies > 0) || enrolled.contains_key(&row.region.get()) {
            return Ok(());
        }
        let c = match self.best_trainee_of(row) {
            Err(e) => {
                return Err(e);
            },
            Ok(None) => {
                return Ok(());
            },
            Ok(Some(c)) => c,
        };
        let k = *self.cohorts.get(&c).unwrap();
        let fee: i64 = tuition_of(&k);
        let target = level_of_rank(education_rank_of(k.education) + 1);
        let t = match self.partition_training_cohort(c) {
            Err(e) => {
                return Err(e);
            },
            Ok(t) => t,
        };
        let mut paid = *self.cohorts.get(&t).unwrap();
        let amount = Money::from_minor_units(fee);
        match paid.debit_wealth(amount) {
            Err(e) => {
                return Err(e);
            },
            Ok(()) => {},
        }
        self.cohorts.insert(t, paid);
        self.workforce_training.insert(
            t,
            WorkforceTraining {
                cohort: CohortId(t),
                previous_education: k.education,
                target_education: target,
                months_remaining: 3,
                tuition_paid: amount,
                sponsor: TrainingSponsor::Household,
            },
        );
        self.events.append(
            self.date,
            DomainEvent::WorkforceTrainingStarted {
                cohort: CohortId(t),
                previous_education: k.education,
                target_education: target,
                months: 3,
                tuition_paid: amount,
                sponsoring_firm: None,
            },
        );
        let ghost before = enrolled@.dom();
        enrolled.insert(row.region.get(), true);
        proof {
            assert(enrolled@.dom() =~= before.insert(row.region@));
        }
        Ok(())
    }

    /// Enrolls, for each qualified-labor shortage in turn, its region's best self-paying
    /// trainee in a course toward the next education level (see `enrolled`); after an
    /// error the world is left to the caller to discard.
    fn enroll_observed_workforce_training(&mut self) -> (r: Result<(), WorldError>)
        ensures
            match enrolled(old(self)@) {
                Err(e) => r == Err::<(), WorldError>(e),
                Ok(v) => r is Ok && final(self)@ == v,
            },
            labor_frame(old(self)@, final(self)@),
    {
        let ghost w0 = self@;
        let ks = pair_keys_in_order(&self.regional_skill_labor_market);
        let mut done: BTreeMap<u32, bool> = BTreeMap::new();
        let mut i: usize = 0;
        proof {
            assert(ks@.take(0) =~= Seq::<(u32, u32)>::empty());
            assert(done@.dom() =~= Set::<u32>::empty());
        }
        while i < ks.len()
            invariant
                w0 == old(self)@,
                labor_frame(w0, self@),
                ks@ == pair_key_order(w0.regional_skill_labor_market),
                forall|j: int| 0 <= j < ks@.len() ==> w0.regional_skill_labor_market.contains_key(#[trigger] ks@[j]),
                self@.regional_skill_labor_market == w0.regional_skill_labor_market,
                i <= ks.len(),
                enroll_run(w0, ks@.take(i as int)) == Ok::<(WorldView, Set<u32>), WorldError>((self@, done@.dom())),
            decreases ks.len() - i,
        {
            let key = ks[i];
            proof {
                assert(ks@.take(i + 1).drop_last() =~= ks@.take(i as int));
                assert(ks@.take(i + 1).last() == key);
            }
            let row = *self.regional_skill_labor_market.get(&key).unwrap();
            match self.enroll_turn_of(&row, &mut done) {
                Err(e) => {
                    proof {
                        lemma_enroll_sticks(w0, ks@, i + 1, ks@.len() as int);
                        assert(ks@.take(ks@.len() as int) =~= ks@);
                    }
                    return Err(e);
                },
                Ok(()) => {},
            }
            i = i + 1;
        }
        proof {
            assert(ks@.take(ks@.len() as int) =~= ks@);
        }
        Ok(())
    }
}

/// A month of tenure for an active agreement (saturating).
pub open spec fn tenure_month(a: EmploymentAgreement) -> EmploymentAgreement {
    if a.active {
        EmploymentAgreement {
            months_at_current_firm: if a.months_at_current_firm == u8::MAX {
                u8::MAX
            } else {
                (a.months_at_current_firm + 1) as u8
            },
            ..a
        }
    } else {
        a
    }
}

/// The month's labor market (see `execute_observed_labor_matching`): the world after
/// it and the hires its offers made. In turn: every firm's offer (see `firm_offer`),
/// ranked (see `ranks_before`); the courses move on a month (see
/// `progress_workforce_training`); the ranked offers hire (see `matches_run`); firms
/// that did not hire lure settled workers with better offers (see `switches_run`); each
/// region with a configured firm records its labor evidence (see `observe_run`); the
/// shortages enroll trainees (see `enrolled`); active agreements gain a month of tenure;
/// and the month is recorded. An error of any step refuses the month; `Err(None)` where a
/// step would overflow a count. This library records neither firm insolvency nor firm
/// expectations: every firm may bid, no incumbent forecasts the solvency to retain a
/// lured worker (so a lured worker switches), and no firm forecasts the solvency to
/// sponsor a trainee (so only households that can pay enroll).
pub open spec fn labor_month(w: WorldView) -> Result<(WorldView, Seq<EmploymentMatch>), Option<WorldError>> {
    if w.last_labor_market_date == Some(w.date) {
        Err(Some(WorldError::MonthlyStageAlreadyExecuted { stage: "observed labor matching", date: w.date }))
    } else {
        match offers_of(w, key_order(w.firms)) {
            Err(e) => Err(Some(e)),
            Ok(offers) => {
                let ranked_offers = ranked(offers);
                match stalled_training(w, key_order(w.workforce_training)) {
                    Some(c) => Err(Some(WorldError::UnknownCohort(CohortId(c)))),
                    None => {
                        let v1 = training_months(w, key_order(w.workforce_training));
                        match matches_run(v1, ranked_offers) {
                            Err(e) => Err(e),
                            Ok((v2, ms)) => match switches_run(v2, key_order(v2.firms), hiring_firms(ms)) {
                                Err(e) => Err(e),
                                Ok((v3, ss, _)) => match observe_run(
                                    v3,
                                    key_order(labor_regions(v3, key_order(v3.firms))),
                                    ranked_offers,
                                    ms,
                                    ss,
                                ) {
                                    Err(e) => Err(e),
                                    Ok(v4) => match enrolled(v4) {
                                        Err(e) => Err(Some(e)),
                                        Ok(v5) => Ok(
                                            (
                                                WorldView {
                                                    employment_agreements: v5.employment_agreements.map_values(
                                                        |a: EmploymentAgreement| tenure_month(a),
                                                    ),
                                                    last_labor_market_date: Some(v5.date),
                                                    events: v5.events.push(
                                                        EventEnvelope {
                                                            date: v5.date,
                                                            event: DomainEvent::ObservedLaborMatchingCompleted {
                                                                offers: (offers.len() + ss.len()) as u64,
                                                                matches: ms.len() as u64,
                                                                switches: ss.len() as u64,
                                                                retentions: 0,
                                                            },
                                                        },
                                                    ),
                                                    ..v5
                                                },
                                                ms,
                                            ),
                                        ),
                                    },
                                },
                            },
                        }
                    },
                }
            },
        }
    }
}

proof fn lemma_increasing_floor(s: Seq<u32>, i: int)
    requires
        strictly_increasing(s),
        0 <= i < s.len(),
    ensures
        s[i] >= i,
    decreases i,
{
    if i > 0 {
        lemma_increasing_floor(s, i - 1);
        assert(s[i - 1] < s[i]);
    }
}

/// A strictly increasing sequence of `u32` has at most 2^32 elements.
proof fn lemma_increasing_len(s: Seq<u32>)
    requires
        strictly_increasing(s),
    ensures
        s.len() <= 0x1_0000_0000,
{
    if s.len() > 0 {
        lemma_increasing_floor(s, s.len() - 1);
    }
}

proof fn lemma_offers_len(w: WorldView, ks: Seq<u32>)
    requires
        offers_of(w, ks) is Ok,
    ensures
        offers_of(w, ks)->Ok_0.len() <= ks.len(),
    decreases ks.len(),
{
    if ks.len() > 0 {
        lemma_offers_len(w, ks.drop_last());
    }
}

proof fn lemma_slot_bound(t: Seq<EmploymentMatch>, x: EmploymentMatch)
    ensures
        0 <= slot(t, x) <= t.len(),
    decreases t.len(),
{
    if t.len() > 0 {
        lemma_slot_bound(t.drop_first(), x);
    }
}

proof fn lemma_ranked_len(s: Seq<EmploymentMatch>)
    ensures
        ranked(s).len() == s.len(),
    decreases s.len(),
{
    if s.len() > 0 {
        lemma_ranked_len(s.drop_last());
        lemma_slot_bound(ranked(s.drop_last()), s.last());
    }
}

proof fn lemma_matches_len(w: WorldView, s: Seq<EmploymentMatch>)
    requires
        matches_run(w, s) is Ok,
    ensures
        matches_run(w, s)->Ok_0.1.len() <= s.len(),
    decreases s.len(),
{
    if s.len() > 0 {
        lemma_matches_len(w, s.drop_last());
    }
}

proof fn lemma_switches_len(w: WorldView, fs: Seq<u32>, t: Set<u32>)
    requires
        switches_run(w, fs, t) is Ok,
    ensures
        switches_run(w, fs, t)->Ok_0.1.len() <= fs.len(),
    decreases fs.len(),
{
    if fs.len() > 0 {
        lemma_switches_len(w, fs.drop_last(), t);
    }
}

impl World {
    /// Gives every active agreement a month of tenure (see `tenure_month`).
    fn advance_all_tenure(&mut self)
        ensures
            final(self)@ == (WorldView {
                employment_agreements: old(self)@.employment_agreements.map_values(
                    |a: EmploymentAgreement| tenure_month(a),
                ),
                ..old(self)@
            }),
    {
        let ghost w0 = self@;
        let ghost m0 = self@.employment_agreements;
        let ks = pair_keys_in_order(&self.employment_agreements);
        let mut i: usize = 0;
        while i < ks.len()
            invariant
                ks@ == pair_key_order(m0),
                is_pair_key_order(m0, ks@),
                forall|j: int| 0 <= j < ks@.len() ==> m0.contains_key(#[trigger] ks@[j]),
                i <= ks.len(),
                self@ == (WorldView { employment_agreements: self@.employment_agreements, ..w0 }),
                self@.employment_agreements.dom() == m0.dom(),
                forall|j: int| 0 <= j < i ==> self@.employment_agreements[#[trigger] ks@[j]] == tenure_month(m0[ks@[j]]),
                forall|j: int| i <= j < ks@.len() ==> self@.employment_agreements[#[trigger] ks@[j]] == m0[ks@[j]],
            decreases ks.len() - i,
        {
            let k = ks[i];
            let mut a = *self.employment_agreements.get(&k).unwrap();
            a.advance_tenure();
            proof {
                assert(a == tenure_month(m0[k]));
            }
            self.employment_agreements.insert(k, a);
            proof {
                assert forall|j: int| 0 <= j < ks@.len() && j != i implies ks@[j] != k by {
                    if j < i {
                        assert(crate::ordered::pair_lt(ks@[j], ks@[i as int]));
                    } else {
                        assert(crate::ordered::pair_lt(ks@[i as int], ks@[j]));
                    }
                }
                assert(self@.employment_agreements.dom() =~= m0.dom());
            }
            i = i + 1;
        }
        proof {
            assert forall|k: (u32, u32)| #[trigger] m0.contains_key(k) implies self@.employment_agreements[k]
                == tenure_month(m0[k]) by {
                assert(ks@.to_set().contains(k));
                let j = choose|j: int| 0 <= j < ks@.len() && ks@[j] == k;
                assert(self@.employment_agreements[ks@[j]] == tenure_month(m0[ks@[j]]));
            }
            assert(self@.employment_agreements =~= m0.map_values(|a: EmploymentAgreement| tenure_month(a)));
        }
    }

    /// Puts back the labor ledgers and the event log of `w0`, which the world differs
    /// from only as `labor_frame` allows.
    fn restore_labor(
        &mut self,
        Ghost(w0): Ghost<WorldView>,
        cohorts: BTreeMap<u32, HouseholdCohort>,
        training: BTreeMap<u32, WorkforceTraining>,
        agreements: BTreeMap<(u32, u32), EmploymentAgreement>,
        market: BTreeMap<u32, RegionalLaborMarketObservation>,
        skill: BTreeMap<(u32, u32), RegionalSkillLaborMarketObservation>,
        n: usize,
    )
        requires
            labor_frame(w0, old(self)@),
            cohorts@ == w0.cohorts,
            training@ == w0.workforce_training,
            agreements@ == w0.employment_agreements,
            market@ == w0.regional_labor_market,
            skill@ == w0.regional_skill_labor_market,
            n == w0.events.len(),
        ensures
            final(self)@ == w0,
    {
        self.cohorts = cohorts;
        self.workforce_training = training;
        self.employment_agreements = agreements;
        self.regional_labor_market = market;
        self.regional_skill_labor_market = skill;
        self.events.entries.truncate(n);
        proof {
            assert(self@.events =~= w0.events);
        }
    }

    /// Runs the month's labor market (see `labor_month`): offers ranked by wage, then firm,
    /// then cohort, so that equal worlds replay identically; hires, switches, the regional
    /// labor evidence, training enrollment, tenure; a refused month changes nothing.
    pub fn execute_observed_labor_matching(&mut self) -> (r: Result<Vec<EmploymentMatch>, WorldError>)
        requires
            !(labor_month(old(self)@) matches Err(None)),
        ensures
            match labor_month(old(self)@) {
                Err(e) => r == Err::<Vec<EmploymentMatch>, WorldError>(e->Some_0) && final(self)@ == old(self)@,
                Ok((v, ms)) => r matches Ok(m) && m@ == ms && final(self)@ == v,
            },
    {
        let ghost w0 = self@;
        let already = match self.last_labor_market_date {
            Some(d) => d == self.date,
            None => false,
        };
        if already {
            return Err(WorldError::MonthlyStageAlreadyExecuted { stage: "observed labor matching", date: self.date });
        }
        let fs = keys_in_order(&self.firms);
        let offers = match self.offers_of_month() {
            Ok(o) => o,
            Err(e) => {
                return Err(e);
            },
        };
        let ranked_offers = rank_offers(&offers);
        proof {
            lemma_increasing_len(fs@);
            lemma_offers_len(w0, fs@);
            lemma_ranked_len(offers@);
        }
        let saved_cohorts = self.cohorts.clone();
        let saved_training = self.workforce_training.clone();
        let saved_agreements = self.employment_agreements.clone();
        let saved_market = self.regional_labor_market.clone();
        let saved_skill = self.regional_skill_labor_market.clone();
        let n = self.events.entries.len();
        match self.progress_workforce_training() {
            Ok(()) => {},
            Err(e) => {
                return Err(e);
            },
        }
        proof {
            lemma_training_frame(w0, key_order(w0.workforce_training));
        }
        let ghost v1 = self@;
        let ms = match self.run_matches(&ranked_offers) {
            Ok(m) => m,
            Err(e) => {
                self.restore_labor(
                    Ghost(w0),
                    saved_cohorts,
                    saved_training,
                    saved_agreements,
                    saved_market,
                    saved_skill,
                    n,
                );
                return Err(e);
            },
        };
        proof {
            lemma_matches_len(v1, ranked_offers@);
        }
        let ghost v2 = self@;
        let ss = match self.run_switches(&ms) {
            Ok(s) => s,
            Err(e) => {
                self.restore_labor(
                    Ghost(w0),
                    saved_cohorts,
                    saved_training,
                    saved_agreements,
                    saved_market,
                    saved_skill,
                    n,
                );
                return Err(e);
            },
        };
        proof {
            lemma_switches_len(v2, key_order(v2.firms), hiring_firms(ms@));
        }
        match self.run_observations(&ranked_offers, &ms, &ss) {
            Ok(()) => {},
            Err(e) => {
                self.restore_labor(
                    Ghost(w0),
                    saved_cohorts,
                    saved_training,
                    saved_agreements,
                    saved_market,
                    saved_skill,
                    n,
                );
                return Err(e);
            },
        }
        match self.enroll_observed_workforce_training() {
            Ok(()) => {},
            Err(e) => {
                self.restore_labor(
                    Ghost(w0),
                    saved_cohorts,
                    saved_training,
                    saved_agreements,
                    saved_market,
                    saved_skill,
                    n,
                );
                return Err(e);
            },
        }
        self.advance_all_tenure();
        self.last_labor_market_date = Some(self.date);
        let offered: u64 = offers.len() as u64 + ss.len() as u64;
        self.events.append(
            self.date,
            DomainEvent::ObservedLaborMatchingCompleted {
                offers: offered,
                matches: ms.len() as u64,
                switches: ss.len() as u64,
                retentions: 0,
            },
        );
        Ok(ms)
    }
}

/// The households of region `r` as a sum over cohorts.
proof fn lemma_households_in_is_sum(cohorts: Map<u32, HouseholdCohort>, ks: Seq<u32>, r: u32)
    ensures
        crate::migration::households_in(cohorts, ks, r) == crate::migration::key_sum(
            cohorts,
            ks,
            |c: HouseholdCohort| if c.region@ == r { c.households as int } else { 0int },
        ),
    decreases ks.len(),
{
    if ks.len() > 0 {
        lemma_households_in_is_sum(cohorts, ks.drop_last(), r);
    }
}

/// Whether two cohort ledgers hold the same people and households in every region.
pub open spec fn same_head_counts(a: WorldView, b: WorldView) -> bool {
    forall|r: u32|
        #![trigger crate::cohort::cohort_population(a, r)]
        #![trigger crate::cohort::cohort_population(b, r)]
        crate::cohort::cohort_population(b, r) == crate::cohort::cohort_population(a, r)
            && crate::migration::households_in(b.cohorts, key_order(b.cohorts), r)
            == crate::migration::households_in(a.cohorts, key_order(a.cohorts), r)
}

proof fn lemma_matches_keep_cohorts(w: WorldView, s: Seq<EmploymentMatch>)
    requires
        matches_run(w, s) is Ok,
    ensures
        matches_run(w, s)->Ok_0.0.cohorts == w.cohorts,
    decreases s.len(),
{
    if s.len() > 0 {
        lemma_matches_keep_cohorts(w, s.drop_last());
    }
}

proof fn lemma_switches_keep_cohorts(w: WorldView, fs: Seq<u32>, t: Set<u32>)
    requires
        switches_run(w, fs, t) is Ok,
    ensures
        switches_run(w, fs, t)->Ok_0.0.cohorts == w.cohorts,
    decreases fs.len(),
{
    if fs.len() > 0 {
        lemma_switches_keep_cohorts(w, fs.drop_last(), t);
    }
}

proof fn lemma_skills_keep_cohorts(v: WorldView, r: u32, n: nat)
    requires
        skills_run(v, r, n) is Ok,
    ensures
        skills_run(v, r, n)->Ok_0.cohorts == v.cohorts,
    decreases n,
{
    if n > 0 {
        lemma_skills_keep_cohorts(v, r, (n - 1) as nat);
    }
}

proof fn lemma_observe_keeps_cohorts(
    v: WorldView,
    rs: Seq<u32>,
    offers: Seq<EmploymentMatch>,
    ms: Seq<EmploymentMatch>,
    ss: Seq<EmploymentSwitch>,
)
    requires
        observe_run(v, rs, offers, ms, ss) is Ok,
    ensures
        observe_run(v, rs, offers, ms, ss)->Ok_0.cohorts == v.cohorts,
    decreases rs.len(),
{
    if rs.len() > 0 {
        lemma_observe_keeps_cohorts(v, rs.drop_last(), offers, ms, ss);
        let v1 = observe_run(v, rs.drop_last(), offers, ms, ss)->Ok_0;
        let v2 = labor_observation(v1, rs.last(), offers, ms, ss)->Ok_0;
        lemma_skills_keep_cohorts(v2, rs.last(), 5);
    }
}

proof fn lemma_best_trainee_in(v: WorldView, row: RegionalSkillLaborMarketObservation, ks: Seq<u32>)
    requires
        best_trainee(v, row, ks) is Ok,
        forall|j: int| 0 <= j < ks.len() ==> v.cohorts.contains_key(#[trigger] ks[j]),
    ensures
        best_trainee(v, row, ks)->Ok_0 matches Some(c) ==> v.cohorts.contains_key(c),
    decreases ks.len(),
{
    if ks.len() > 0 {
        lemma_best_trainee_in(v, row, ks.drop_last());
        assert(v.cohorts.contains_key(ks[ks.len() - 1]));
    }
}

/// A sum over cohorts is the same for ledgers with the same keys and the same summand.
proof fn lemma_key_sum_agree(
    a: Map<u32, HouseholdCohort>,
    b: Map<u32, HouseholdCohort>,
    ks: Seq<u32>,
    f: spec_fn(HouseholdCohort) -> int,
)
    requires
        forall|j: int| 0 <= j < ks.len() ==> f(a[#[trigger] ks[j]]) == f(b[ks[j]]),
    ensures
        crate::migration::key_sum(a, ks, f) == crate::migration::key_sum(b, ks, f),
    decreases ks.len(),
{
    if ks.len() > 0 {
        let init = ks.drop_last();
        assert forall|j: int| 0 <= j < init.len() implies f(a[#[trigger] init[j]]) == f(b[init[j]]) by {
            assert(init[j] == ks[j]);
        }
        lemma_key_sum_agree(a, b, init, f);
        assert(f(a[ks[ks.len() - 1]]) == f(b[ks[ks.len() - 1]]));
    }
}

/// One enrollment turn keeps every region's people and households, and the key order
/// of the cohorts.
#[verifier::spinoff_prover]
#[verifier::rlimit(60)]
proof fn lemma_enroll_turn_counts(v: WorldView, row: RegionalSkillLaborMarketObservation, enrolled: Set<u32>)
    requires
        is_key_order(v.cohorts, key_order(v.cohorts)),
        enroll_turn(v, row, enrolled) is Ok,
    ensures
        is_key_order(enroll_turn(v, row, enrolled)->Ok_0.0.cohorts, key_order(enroll_turn(v, row, enrolled)->Ok_0.0.cohorts)),
        same_head_counts(v, enroll_turn(v, row, enrolled)->Ok_0.0),
{
    let v2 = enroll_turn(v, row, enrolled)->Ok_0.0;
    if !(is_shortage(row) && !enrolled.contains(row.region@)) {
        assert(v2 == v);
    } else {
        let ks = key_order(v.cohorts);
        let b = best_trainee(v, row, ks)->Ok_0;
        if b is None {
            assert(v2 == v);
        } else {
            let c = b->Some_0;
            assert forall|j: int| 0 <= j < ks.len() implies v.cohorts.contains_key(#[trigger] ks[j]) by {
                assert(ks.to_set().contains(ks[j]));
            }
            lemma_best_trainee_in(v, row, ks);
            let k = v.cohorts[c];
            let (v1, t) = training_partition(v, c)->Ok_0;
            let paid = wealth_debit(v1.cohorts[t], Money::spec_from(tuition(k) as i64))->Ok_0;
            assert(v2.cohorts == v1.cohorts.insert(t, paid));
            assert forall|r: u32|
                #![trigger crate::cohort::cohort_population(v2, r)]
                #![trigger crate::cohort::cohort_population(v, r)]
                crate::cohort::cohort_population(v2, r) == crate::cohort::cohort_population(v, r)
                    && crate::migration::households_in(v2.cohorts, key_order(v2.cohorts), r)
                    == crate::migration::households_in(v.cohorts, key_order(v.cohorts), r) by {
                let fp = |x: HouseholdCohort| if x.region@ == r { x.people@ as int } else { 0int };
                let fh = |x: HouseholdCohort| if x.region@ == r { x.households as int } else { 0int };
                lemma_people_in_is_sum_all(v.cohorts, r);
                lemma_people_in_is_sum_all(v2.cohorts, r);
                if k.people@ <= 1 || k.households <= 1 {
                    assert(v1 == v && t == c);
                    crate::migration::lemma_total_update(v.cohorts, c, paid, fp);
                    crate::migration::lemma_total_update(v.cohorts, c, paid, fh);
                } else {
                    let p = k.people@ as int;
                    let h = k.households as int;
                    assert(1 <= (p + h - 1) / h <= p) by (nonlinear_arith)
                        requires
                            p > 1,
                            h > 1,
                    ;
                    let rem = remaining_cohort(k);
                    let split = migrant_cohort(k, t, k.region, 0);
                    let c1 = v.cohorts.insert(c, rem);
                    crate::migration::lemma_total_update(v.cohorts, c, rem, fp);
                    crate::migration::lemma_total_update(v.cohorts, c, rem, fh);
                    let ks0 = key_order(v.cohorts);
                    assert forall|x: u32| #[trigger] c1.contains_key(x) implies x < t by {
                        assert(v.cohorts.contains_key(x));
                        assert(ks0.to_set().contains(x));
                        let j = choose|j: int| 0 <= j < ks0.len() && ks0[j] == x;
                        if j < ks0.len() - 1 {
                            assert(ks0[j] < ks0[ks0.len() - 1]);
                        }
                    }
                    crate::migration::lemma_total_push(c1, t, split, fp);
                    crate::migration::lemma_total_push(c1, t, split, fh);
                    let c2 = c1.insert(t, split);
                    assert(v1.cohorts == c2);
                    crate::migration::lemma_total_update(c2, t, paid, fp);
                    crate::migration::lemma_total_update(c2, t, paid, fh);
                }
            }
            if k.people@ <= 1 || k.households <= 1 {
                crate::migration::lemma_total_update(v.cohorts, c, paid, |x: HouseholdCohort| 0int);
            } else {
                let rem = remaining_cohort(k);
                let split = migrant_cohort(k, t, k.region, 0);
                let c1 = v.cohorts.insert(c, rem);
                crate::migration::lemma_total_update(v.cohorts, c, rem, |x: HouseholdCohort| 0int);
                let ks0 = key_order(v.cohorts);
                assert forall|x: u32| #[trigger] c1.contains_key(x) implies x < t by {
                    assert(v.cohorts.contains_key(x));
                    assert(ks0.to_set().contains(x));
                    let j = choose|j: int| 0 <= j < ks0.len() && ks0[j] == x;
                    if j < ks0.len() - 1 {
                        assert(ks0[j] < ks0[ks0.len() - 1]);
                    }
                }
                crate::migration::lemma_total_push(c1, t, split, |x: HouseholdCohort| 0int);
                crate::migration::lemma_total_update(c1.insert(t, split), t, paid, |x: HouseholdCohort| 0int);
            }
        }
    }
}

/// The people and households of region `r` as sums over the cohorts' key order.
proof fn lemma_people_in_is_sum_all(cohorts: Map<u32, HouseholdCohort>, r: u32)
    ensures
        crate::cohort::people_in(cohorts, key_order(cohorts), r) == crate::migration::key_sum(
            cohorts,
            key_order(cohorts),
            |c: HouseholdCohort| if c.region@ == r { c.people@ as int } else { 0int },
        ),
        crate::migration::households_in(cohorts, key_order(cohorts), r) == crate::migration::key_sum(
            cohorts,
            key_order(cohorts),
            |c: HouseholdCohort| if c.region@ == r { c.households as int } else { 0int },
        ),
{
    crate::migration::lemma_people_in_is_sum(cohorts, key_order(cohorts), r);
    lemma_households_in_is_sum(cohorts, key_order(cohorts), r);
}

proof fn lemma_enroll_run_counts(v: WorldView, ks: Seq<(u32, u32)>)
    requires
        is_key_order(v.cohorts, key_order(v.cohorts)),
        enroll_run(v, ks) is Ok,
    ensures
        is_key_order(enroll_run(v, ks)->Ok_0.0.cohorts, key_order(enroll_run(v, ks)->Ok_0.0.cohorts)),
        same_head_counts(v, enroll_run(v, ks)->Ok_0.0),
    decreases ks.len(),
{
    if ks.len() > 0 {
        lemma_enroll_run_counts(v, ks.drop_last());
        let (v1, e1) = enroll_run(v, ks.drop_last())->Ok_0;
        lemma_enroll_turn_counts(v1, v.regional_skill_labor_market[ks.last()], e1);
        let v2 = enroll_run(v, ks)->Ok_0.0;
        assert forall|r: u32|
            #![trigger crate::cohort::cohort_population(v2, r)]
            #![trigger crate::cohort::cohort_population(v, r)]
            crate::cohort::cohort_population(v2, r) == crate::cohort::cohort_population(v, r)
                && crate::migration::households_in(v2.cohorts, key_order(v2.cohorts), r)
                == crate::migration::households_in(v.cohorts, key_order(v.cohorts), r) by {
            assert(crate::cohort::cohort_population(v2, r) == crate::cohort::cohort_population(v1, r));
            assert(crate::cohort::cohort_population(v1, r) == crate::cohort::cohort_population(v, r));
        }
    }
}

/// The month's labor market keeps every region's cohort head counts: hires, switches,
/// evidence and tenure change no cohort, training raises education only, and a trainee
/// household split off a cohort stays in its region with its people and household. (For
/// a cohort ledger with a key order.)
#[verifier::spinoff_prover]
pub proof fn lemma_labor_month_keeps_head_counts(w: WorldView)
    requires
        is_key_order(w.cohorts, key_order(w.cohorts)),
        is_key_order(w.workforce_training, key_order(w.workforce_training)),
        labor_month(w) is Ok,
    ensures
        same_head_counts(w, labor_month(w)->Ok_0.0),
{
    let offers = offers_of(w, key_order(w.firms))->Ok_0;
    let ranked_offers = ranked(offers);
    let v1 = training_months(w, key_order(w.workforce_training));
    crate::labor::lemma_training_keeps_people(w);
    let (v2, ms) = matches_run(v1, ranked_offers)->Ok_0;
    lemma_matches_keep_cohorts(v1, ranked_offers);
    let (v3, ss, _) = switches_run(v2, key_order(v2.firms), hiring_firms(ms))->Ok_0;
    lemma_switches_keep_cohorts(v2, key_order(v2.firms), hiring_firms(ms));
    let rs = key_order(labor_regions(v3, key_order(v3.firms)));
    let v4 = observe_run(v3, rs, ranked_offers, ms, ss)->Ok_0;
    lemma_observe_keeps_cohorts(v3, rs, ranked_offers, ms, ss);
    assert(v1.cohorts.dom() == w.cohorts.dom());
    crate::ordered::lemma_key_order_same_dom(w.cohorts, v1.cohorts, key_order(w.cohorts));
    assert(v4.cohorts == v1.cohorts);
    lemma_enroll_run_counts(v4, pair_key_order(v4.regional_skill_labor_market));
    let v5 = enrolled(v4)->Ok_0;
    let ks = key_order(w.cohorts);
    assert forall|r: u32|
        #![trigger crate::cohort::cohort_population(labor_month(w)->Ok_0.0, r)]
        #![trigger crate::cohort::cohort_population(w, r)]
        crate::cohort::cohort_population(labor_month(w)->Ok_0.0, r) == crate::cohort::cohort_population(w, r)
            && crate::migration::households_in(
            labor_month(w)->Ok_0.0.cohorts,
            key_order(labor_month(w)->Ok_0.0.cohorts),
            r,
        ) == crate::migration::households_in(w.cohorts, key_order(w.cohorts), r) by {
        let fp = |x: HouseholdCohort| if x.region@ == r { x.people@ as int } else { 0int };
        let fh = |x: HouseholdCohort| if x.region@ == r { x.households as int } else { 0int };
        lemma_people_in_is_sum_all(w.cohorts, r);
        lemma_people_in_is_sum_all(v1.cohorts, r);
        assert forall|j: int| 0 <= j < ks.len() implies fp(w.cohorts[#[trigger] ks[j]]) == fp(v1.cohorts[ks[j]])
            && fh(w.cohorts[ks[j]]) == fh(v1.cohorts[ks[j]]) by {
            assert(ks.to_set().contains(ks[j]));
        }
        lemma_key_sum_agree(w.cohorts, v1.cohorts, ks, fp);
        lemma_key_sum_agree(w.cohorts, v1.cohorts, ks, fh);
        assert(crate::cohort::cohort_population(v4, r) == crate::cohort::cohort_population(w, r));
        assert(crate::cohort::cohort_population(v5, r) == crate::cohort::cohort_population(v4, r));
        assert(labor_month(w)->Ok_0.0.cohorts == v5.cohorts);
    }
}

/// Whether offer `o` is sound in `w`: its firm's recipe has the education it states,
/// its cohort is a hireable local cohort with that education, the firm can pay the
/// wage, and the wage is within what the work is worth where that is known.
pub open spec fn offer_sound(w: WorldView, o: EmploymentMatch) -> bool {
    &&& w.firms.contains_key(o.firm@)
    &&& w.recipe_minimum_education.contains_key(w.firms[o.firm@].spec_recipe()@)
    &&& o.minimum_education == w.recipe_minimum_education[w.firms[o.firm@].spec_recipe()@]
    &&& w.cohorts.contains_key(o.cohort@)
    &&& hireable(
        w,
        o.cohort@,
        w.firms[o.firm@].spec_region()@,
        w.firms[o.firm@].spec_recipe()@,
        o.minimum_education,
    )
    &&& w.firms[o.firm@].spec_cash() >= o.wage@
    &&& (value_ceiling(w, o.firm@) matches Ok(Some(m)) ==> o.wage@ <= m)
    &&& most_educated_hireable(
        w,
        o.cohort@,
        w.firms[o.firm@].spec_region()@,
        w.firms[o.firm@].spec_recipe()@,
        o.minimum_education,
    )
}

/// Whether cohort `c` is a hireable cohort for a recipe needing `minimum` in `region`
/// that no other hireable cohort beats: none has more education, and none with as much
/// has a lower id.
pub open spec fn most_educated_hireable(w: WorldView, c: u32, region: u32, recipe: u32, minimum: EducationLevel) -> bool {
    &&& w.cohorts.contains_key(c)
    &&& hireable(w, c, region, recipe, minimum)
    &&& forall|d: u32|
        #![trigger hireable(w, d, region, recipe, minimum)]
        w.cohorts.contains_key(d) && hireable(w, d, region, recipe, minimum) ==> education_rank(
            w.cohorts[d].education,
        ) <= education_rank(w.cohorts[c].education) && (education_rank(w.cohorts[d].education)
            == education_rank(w.cohorts[c].education) ==> c <= d)
}

/// The best hireable cohort among the increasing ids `ks` has as much education as any
/// hireable one among them, and the lowest id among equals; there is none only where
/// none is hireable.
proof fn lemma_best_hireable_prefix(w: WorldView, region: u32, recipe: u32, minimum: EducationLevel, ks: Seq<u32>)
    requires
        strictly_increasing(ks),
    ensures
        match best_hireable(w, region, recipe, minimum, ks) {
            None => forall|j: int| 0 <= j < ks.len() ==> !hireable(w, #[trigger] ks[j], region, recipe, minimum),
            Some(c) => ks.contains(c) && hireable(w, c, region, recipe, minimum) && forall|j: int|
                0 <= j < ks.len() && hireable(w, #[trigger] ks[j], region, recipe, minimum) ==> education_rank(
                    w.cohorts[ks[j]].education,
                ) <= education_rank(w.cohorts[c].education) && (education_rank(w.cohorts[ks[j]].education)
                    == education_rank(w.cohorts[c].education) ==> c <= ks[j]),
        },
    decreases ks.len(),
{
    if ks.len() > 0 {
        let init = ks.drop_last();
        assert(strictly_increasing(init)) by {
            assert forall|i: int, j: int| 0 <= i < j < init.len() implies init[i] < init[j] by {
                assert(init[i] == ks[i] && init[j] == ks[j]);
            }
        }
        lemma_best_hireable_prefix(w, region, recipe, minimum, init);
        let last = ks[ks.len() - 1];
        assert(ks.last() == last);
        match best_hireable(w, region, recipe, minimum, init) {
            None => {
                assert forall|j: int| 0 <= j < ks.len() - 1 implies !hireable(w, #[trigger] ks[j], region, recipe, minimum) by {
                    assert(init[j] == ks[j]);
                }
            },
            Some(x) => {
                let k = choose|k: int| 0 <= k < init.len() && init[k] == x;
                assert(ks[k] == x);
                assert(x < last);
                assert forall|j: int| 0 <= j < ks.len() - 1 && hireable(w, #[trigger] ks[j], region, recipe, minimum) implies education_rank(
                    w.cohorts[ks[j]].education,
                ) <= education_rank(w.cohorts[x].education) && (education_rank(w.cohorts[ks[j]].education)
                    == education_rank(w.cohorts[x].education) ==> x <= ks[j]) by {
                    assert(init[j] == ks[j]);
                }
            },
        }
    }
}

/// The cohort a firm's hiring turns to is the most educated hireable cohort of its
/// region for its recipe, the lowest id among equals; none is found only where none is
/// hireable. (For a cohort ledger with a key order.)
pub proof fn lemma_best_hireable_is_most_educated(w: WorldView, region: u32, recipe: u32, minimum: EducationLevel)
    requires
        is_key_order(w.cohorts, key_order(w.cohorts)),
    ensures
        match best_hireable(w, region, recipe, minimum, key_order(w.cohorts)) {
            None => forall|d: u32| w.cohorts.contains_key(d) ==> !hireable(w, d, region, recipe, minimum),
            Some(c) => most_educated_hireable(w, c, region, recipe, minimum),
        },
{
    let ks = key_order(w.cohorts);
    lemma_best_hireable_prefix(w, region, recipe, minimum, ks);
    match best_hireable(w, region, recipe, minimum, ks) {
        None => {
            assert forall|d: u32| w.cohorts.contains_key(d) implies !hireable(w, d, region, recipe, minimum) by {
                assert(ks.to_set().contains(d));
                let j = choose|j: int| 0 <= j < ks.len() && ks[j] == d;
                assert(!hireable(w, ks[j], region, recipe, minimum));
            }
        },
        Some(c) => {
            assert(w.cohorts.contains_key(c)) by {
                let j = choose|j: int| 0 <= j < ks.len() && ks[j] == c;
                assert(ks.to_set().contains(ks[j]));
            }
            assert forall|d: u32|
                #![trigger hireable(w, d, region, recipe, minimum)]
                w.cohorts.contains_key(d) && hireable(w, d, region, recipe, minimum) implies education_rank(
                    w.cohorts[d].education,
                ) <= education_rank(w.cohorts[c].education) && (education_rank(w.cohorts[d].education)
                    == education_rank(w.cohorts[c].education) ==> c <= d) by {
                assert(ks.to_set().contains(d));
                let j = choose|j: int| 0 <= j < ks.len() && ks[j] == d;
                assert(hireable(w, ks[j], region, recipe, minimum));
            }
        },
    }
}

/// The best trainee among the increasing ids `ks` pays its own way, has as much
/// education as any other self-paying trainee among them, and the lowest id among
/// equals; there is none only where none qualifies.
proof fn lemma_best_trainee_prefix(v: WorldView, row: RegionalSkillLaborMarketObservation, ks: Seq<u32>)
    requires
        strictly_increasing(ks),
        best_trainee(v, row, ks) is Ok,
    ensures
        forall|j: int| 0 <= j < ks.len() ==> trainee(v, #[trigger] ks[j], row) is Ok,
        match best_trainee(v, row, ks)->Ok_0 {
            None => forall|j: int| 0 <= j < ks.len() ==> trainee(v, #[trigger] ks[j], row) == Ok::<bool, WorldError>(false),
            Some(c) => ks.contains(c) && trainee(v, c, row) == Ok::<bool, WorldError>(true) && forall|j: int|
                0 <= j < ks.len() && trainee(v, #[trigger] ks[j], row) == Ok::<bool, WorldError>(true) ==> education_rank(
                    v.cohorts[ks[j]].education,
                ) <= education_rank(v.cohorts[c].education) && (education_rank(v.cohorts[ks[j]].education)
                    == education_rank(v.cohorts[c].education) ==> c <= ks[j]),
        },
    decreases ks.len(),
{
    if ks.len() > 0 {
        let init = ks.drop_last();
        assert(strictly_increasing(init)) by {
            assert forall|i: int, j: int| 0 <= i < j < init.len() implies init[i] < init[j] by {
                assert(init[i] == ks[i] && init[j] == ks[j]);
            }
        }
        lemma_best_trainee_prefix(v, row, init);
        let last = ks[ks.len() - 1];
        assert(ks.last() == last);
        assert forall|j: int| 0 <= j < ks.len() - 1 implies trainee(v, #[trigger] ks[j], row) == trainee(v, init[j], row) by {
            assert(init[j] == ks[j]);
        }
        match best_trainee(v, row, init)->Ok_0 {
            None => {},
            Some(x) => {
                let k = choose|k: int| 0 <= k < init.len() && init[k] == x;
                assert(ks[k] == x);
                assert(x < last);
            },
        }
    }
}

/// The cohort a shortage enrolls is the most educated self-paying trainee, the lowest id
/// among equals. (For a cohort ledger with a key order.)
pub proof fn lemma_best_trainee_is_most_educated(v: WorldView, row: RegionalSkillLaborMarketObservation)
    requires
        is_key_order(v.cohorts, key_order(v.cohorts)),
        best_trainee(v, row, key_order(v.cohorts)) matches Ok(Some(c)),
    ensures
        best_trainee(v, row, key_order(v.cohorts)) matches Ok(Some(c)) && v.cohorts.contains_key(c) && trainee(v, c, row)
            == Ok::<bool, WorldError>(true) && forall|d: u32|
            #![trigger trainee(v, d, row)]
            v.cohorts.contains_key(d) && trainee(v, d, row) == Ok::<bool, WorldError>(true) ==> education_rank(
                v.cohorts[d].education,
            ) <= education_rank(v.cohorts[c].education) && (education_rank(v.cohorts[d].education) == education_rank(
                v.cohorts[c].education,
            ) ==> c <= d),
{
    let ks = key_order(v.cohorts);
    lemma_best_trainee_prefix(v, row, ks);
    let c = best_trainee(v, row, ks)->Ok_0->Some_0;
    let j0 = choose|j: int| 0 <= j < ks.len() && ks[j] == c;
    assert(ks.to_set().contains(ks[j0]));
    assert forall|d: u32|
        #![trigger trainee(v, d, row)]
        v.cohorts.contains_key(d) && trainee(v, d, row) == Ok::<bool, WorldError>(true) implies education_rank(
            v.cohorts[d].education,
        ) <= education_rank(v.cohorts[c].education) && (education_rank(v.cohorts[d].education) == education_rank(
            v.cohorts[c].education,
        ) ==> c <= d) by {
        assert(ks.to_set().contains(d));
        let j = choose|j: int| 0 <= j < ks.len() && ks[j] == d;
        assert(trainee(v, ks[j], row) == Ok::<bool, WorldError>(true));
    }
}

/// A firm's offer is its own and names the most educated hireable cohort of its region
/// for its recipe, the lowest id among equals. (For a cohort ledger with a key order.)
pub proof fn lemma_firm_offer_picks_most_educated(w: WorldView, firm: u32)
    requires
        is_key_order(w.cohorts, key_order(w.cohorts)),
        firm_offer(w, firm) matches Ok(Some(o)),
    ensures
        firm_offer(w, firm) matches Ok(Some(o)) && most_educated_hireable(
            w,
            o.cohort@,
            w.firms[firm].spec_region()@,
            w.firms[firm].spec_recipe()@,
            o.minimum_education,
        ) && o.firm@ == firm,
{
    let f = w.firms[firm];
    let recipe = f.spec_recipe()@;
    lemma_best_hireable_is_most_educated(w, f.spec_region()@, recipe, w.recipe_minimum_education[recipe]);
}

/// Whether the offers `s` rank strictly in order and come from distinct firms.
pub open spec fn strictly_ranked(s: Seq<EmploymentMatch>) -> bool {
    &&& forall|i: int, j: int| 0 <= i < j < s.len() ==> ranks_before(#[trigger] s[i], #[trigger] s[j])
    &&& forall|i: int, j: int| 0 <= i < j < s.len() ==> (#[trigger] s[i]).firm != (#[trigger] s[j]).firm
}

proof fn lemma_best_hireable_is_hireable(
    w: WorldView,
    region: u32,
    recipe: u32,
    minimum: EducationLevel,
    ks: Seq<u32>,
)
    requires
        forall|j: int| 0 <= j < ks.len() ==> w.cohorts.contains_key(#[trigger] ks[j]),
    ensures
        best_hireable(w, region, recipe, minimum, ks) matches Some(c) ==> w.cohorts.contains_key(c) && hireable(
            w,
            c,
            region,
            recipe,
            minimum,
        ),
    decreases ks.len(),
{
    if ks.len() > 0 {
        lemma_best_hireable_is_hireable(w, region, recipe, minimum, ks.drop_last());
        assert(w.cohorts.contains_key(ks[ks.len() - 1]));
    }
}

/// The offers of the firms `ks` (increasing keys of `w`) are sound and come from
/// increasing firms of `ks`.
#[verifier::spinoff_prover]
proof fn lemma_offers_sound(w: WorldView, ks: Seq<u32>)
    requires
        strictly_increasing(ks),
        forall|j: int| 0 <= j < ks.len() ==> w.firms.contains_key(#[trigger] ks[j]),
        is_key_order(w.cohorts, key_order(w.cohorts)),
        offers_of(w, ks) is Ok,
    ensures
        forall|i: int| 0 <= i < offers_of(w, ks)->Ok_0.len() ==> offer_sound(w, #[trigger] offers_of(w, ks)->Ok_0[i]),
        forall|i: int, j: int|
            0 <= i < j < offers_of(w, ks)->Ok_0.len() ==> (#[trigger] offers_of(w, ks)->Ok_0[i]).firm@
                < (#[trigger] offers_of(w, ks)->Ok_0[j]).firm@,
        forall|i: int|
            0 <= i < offers_of(w, ks)->Ok_0.len() ==> ks.contains((#[trigger] offers_of(w, ks)->Ok_0[i]).firm@),
    decreases ks.len(),
{
    if ks.len() > 0 {
        let init = ks.drop_last();
        assert forall|j: int| 0 <= j < init.len() implies w.firms.contains_key(#[trigger] init[j]) by {
            assert(init[j] == ks[j]);
        }
        lemma_offers_sound(w, init);
        let prev = offers_of(w, init)->Ok_0;
        let f = ks.last();
        assert(w.firms.contains_key(ks[ks.len() - 1]));
        if firm_offer(w, f)->Ok_0 is Some {
            let o = firm_offer(w, f)->Ok_0->Some_0;
            let firm = w.firms[f];
            let cks = key_order(w.cohorts);
            assert forall|j: int| 0 <= j < cks.len() implies w.cohorts.contains_key(#[trigger] cks[j]) by {
                assert(cks.to_set().contains(cks[j]));
            }
            lemma_best_hireable_is_hireable(
                w,
                firm.spec_region()@,
                firm.spec_recipe()@,
                w.recipe_minimum_education[firm.spec_recipe()@],
                cks,
            );
            lemma_firm_offer_picks_most_educated(w, f);
            let all = prev.push(o);
            assert forall|i: int| 0 <= i < all.len() implies ks.contains((#[trigger] all[i]).firm@) by {
                if i < prev.len() {
                    assert(prev[i] == all[i]);
                    assert(init.contains(prev[i].firm@));
                    let j = choose|j: int| 0 <= j < init.len() && init[j] == prev[i].firm@;
                    assert(ks[j] == init[j]);
                } else {
                    assert(ks[ks.len() - 1] == f);
                }
            }
            assert forall|i: int, j: int| 0 <= i < j < all.len() implies (#[trigger] all[i]).firm@
                < (#[trigger] all[j]).firm@ by {
                if j == all.len() - 1 {
                    assert(init.contains(prev[i].firm@));
                    let k = choose|k: int| 0 <= k < init.len() && init[k] == prev[i].firm@;
                    assert(ks[k] < ks[ks.len() - 1]);
                } else {
                    assert(prev[i] == all[i] && prev[j] == all[j]);
                }
            }
            assert forall|i: int| 0 <= i < all.len() implies offer_sound(w, #[trigger] all[i]) by {
                if i < prev.len() {
                    assert(prev[i] == all[i]);
                } else {
                    Money::lemma_spec_from_view(o.wage@);
                }
            }
        }
    }
}

proof fn lemma_slot_props(t: Seq<EmploymentMatch>, x: EmploymentMatch)
    ensures
        0 <= slot(t, x) <= t.len(),
        forall|i: int| 0 <= i < slot(t, x) ==> !ranks_before(x, #[trigger] t[i]),
        slot(t, x) < t.len() ==> ranks_before(x, t[slot(t, x)]),
    decreases t.len(),
{
    if t.len() > 0 && !ranks_before(x, t[0]) {
        let u = t.drop_first();
        lemma_slot_props(u, x);
        assert forall|i: int| 0 <= i < slot(t, x) implies !ranks_before(x, #[trigger] t[i]) by {
            if i > 0 {
                assert(t[i] == u[i - 1]);
            }
        }
        if slot(t, x) < t.len() {
            assert(t[slot(t, x)] == u[slot(u, x)]);
        }
    }
}

/// The ranked offers hold exactly the offers' elements.
proof fn lemma_ranked_elems(s: Seq<EmploymentMatch>)
    ensures
        ranked(s).len() == s.len(),
        forall|i: int| 0 <= i < ranked(s).len() ==> s.contains(#[trigger] ranked(s)[i]),
    decreases s.len(),
{
    if s.len() > 0 {
        let s0 = s.drop_last();
        lemma_ranked_elems(s0);
        let t = ranked(s0);
        let x = s.last();
        lemma_slot_props(t, x);
        let k = slot(t, x);
        let u = t.insert(k, x);
        assert(ranked(s) == u);
        assert forall|i: int| 0 <= i < u.len() implies s.contains(#[trigger] u[i]) by {
            if i == k {
                assert(s[s.len() - 1] == x);
            } else {
                let ti = if i < k { i } else { i - 1 };
                assert(u[i] == t[ti]);
                assert(s0.contains(t[ti]));
                let j = choose|j: int| 0 <= j < s0.len() && s0[j] == t[ti];
                assert(s[j] == s0[j]);
            }
        }
    }
}

/// The ranked offers come in order of rank.
#[verifier::spinoff_prover]
#[verifier::rlimit(60)]
proof fn lemma_ranked_sorted(s: Seq<EmploymentMatch>)
    ensures
        forall|i: int, j: int| 0 <= i < j < ranked(s).len() ==> !ranks_before(#[trigger] ranked(s)[j], #[trigger] ranked(s)[i]),
    decreases s.len(),
{
    if s.len() > 0 {
        let s0 = s.drop_last();
        lemma_ranked_sorted(s0);
        let t = ranked(s0);
        let x = s.last();
        lemma_slot_props(t, x);
        let k = slot(t, x);
        let u = t.insert(k, x);
        assert(ranked(s) == u);
        assert forall|i: int, j: int| 0 <= i < j < u.len() implies !ranks_before(#[trigger] u[j], #[trigger] u[i]) by {
            if j < k {
                assert(u[i] == t[i] && u[j] == t[j]);
            } else if j == k {
                assert(u[i] == t[i]);
            } else if i < k {
                assert(u[i] == t[i] && u[j] == t[j - 1]);
            } else if i == k {
                assert(u[j] == t[j - 1]);
                assert(ranks_before(x, t[k]));
                if j - 1 > k {
                    assert(!ranks_before(t[j - 1], t[k]));
                }
            } else {
                assert(u[i] == t[i - 1] && u[j] == t[j - 1]);
            }
        }
    }
}

/// Ranking offers of distinct firms keeps their firms distinct.
#[verifier::spinoff_prover]
proof fn lemma_ranked_distinct(s: Seq<EmploymentMatch>)
    requires
        forall|i: int, j: int| 0 <= i < j < s.len() ==> (#[trigger] s[i]).firm != (#[trigger] s[j]).firm,
    ensures
        forall|i: int, j: int| 0 <= i < j < ranked(s).len() ==> (#[trigger] ranked(s)[i]).firm != (#[trigger] ranked(s)[j]).firm,
    decreases s.len(),
{
    if s.len() > 0 {
        let s0 = s.drop_last();
        assert forall|i: int, j: int| 0 <= i < j < s0.len() implies (#[trigger] s0[i]).firm != (#[trigger] s0[j]).firm by {
            assert(s0[i] == s[i] && s0[j] == s[j]);
        }
        lemma_ranked_distinct(s0);
        lemma_ranked_elems(s0);
        let t = ranked(s0);
        let x = s.last();
        lemma_slot_props(t, x);
        let k = slot(t, x);
        let u = t.insert(k, x);
        assert(ranked(s) == u);
        assert forall|i: int| 0 <= i < t.len() implies (#[trigger] t[i]).firm != x.firm by {
            assert(s0.contains(t[i]));
            let j = choose|j: int| 0 <= j < s0.len() && s0[j] == t[i];
            assert(s[j] == s0[j]);
            assert(s[s.len() - 1] == x);
        }
        assert forall|i: int, j: int| 0 <= i < j < u.len() implies (#[trigger] u[i]).firm != (#[trigger] u[j]).firm by {
            if j < k {
                assert(u[i] == t[i] && u[j] == t[j]);
            } else if j == k {
                assert(u[i] == t[i]);
            } else if i < k {
                assert(u[i] == t[i] && u[j] == t[j - 1]);
            } else if i == k {
                assert(u[j] == t[j - 1]);
            } else {
                assert(u[i] == t[i - 1] && u[j] == t[j - 1]);
            }
        }
    }
}

/// The hires of strictly ranked offers are among them and strictly ranked.
#[verifier::spinoff_prover]
proof fn lemma_matches_ranked(v: WorldView, s: Seq<EmploymentMatch>)
    requires
        strictly_ranked(s),
        matches_run(v, s) is Ok,
    ensures
        strictly_ranked(matches_run(v, s)->Ok_0.1),
        forall|i: int| 0 <= i < matches_run(v, s)->Ok_0.1.len() ==> s.contains(#[trigger] matches_run(v, s)->Ok_0.1[i]),
    decreases s.len(),
{
    if s.len() > 0 {
        let s0 = s.drop_last();
        assert forall|i: int, j: int| 0 <= i < j < s0.len() implies ranks_before(#[trigger] s0[i], #[trigger] s0[j]) && s0[i].firm != s0[j].firm by {
            assert(s0[i] == s[i] && s0[j] == s[j]);
        }
        lemma_matches_ranked(v, s0);
        let ms0 = matches_run(v, s0)->Ok_0.1;
        let ms = matches_run(v, s)->Ok_0.1;
        let x = s.last();
        assert forall|i: int| 0 <= i < ms0.len() implies s.contains(#[trigger] ms0[i]) by {
            assert(s0.contains(ms0[i]));
            let j = choose|j: int| 0 <= j < s0.len() && s0[j] == ms0[i];
            assert(s[j] == s0[j]);
        }
        if ms.len() > ms0.len() {
            assert(ms == ms0.push(x));
            assert forall|i: int| 0 <= i < ms0.len() implies ranks_before(#[trigger] ms0[i], x) && ms0[i].firm != x.firm by {
                assert(s0.contains(ms0[i]));
                let j = choose|j: int| 0 <= j < s0.len() && s0[j] == ms0[i];
                assert(s[j] == s0[j]);
                assert(s[s.len() - 1] == x);
            }
            assert forall|i: int, j: int| 0 <= i < j < ms.len() implies ranks_before(#[trigger] ms[i], #[trigger] ms[j]) && ms[i].firm != ms[j].firm by {
                if j < ms0.len() {
                    assert(ms[i] == ms0[i] && ms[j] == ms0[j]);
                } else {
                    assert(ms[i] == ms0[i] && ms[j] == x);
                }
            }
            assert forall|i: int| 0 <= i < ms.len() implies s.contains(#[trigger] ms[i]) by {
                if i < ms0.len() {
                    assert(ms[i] == ms0[i]);
                } else {
                    assert(s[s.len() - 1] == x);
                }
            }
        }
    }
}

/// Every hire of the month is one of its offers, sound in the world before it (an
/// unemployed, qualified, free local worker at the firm's current bid, within what the
/// work is worth and what the firm can pay); no firm hires twice; and the hires come in
/// rank order (higher wage first, then lower firm id, then lower cohort id). (For a
/// world with key orders.)
#[verifier::spinoff_prover]
pub proof fn lemma_labor_month_hires(w: WorldView)
    requires
        is_key_order(w.firms, key_order(w.firms)),
        is_key_order(w.cohorts, key_order(w.cohorts)),
        is_key_order(w.workforce_training, key_order(w.workforce_training)),
        labor_month(w) is Ok,
    ensures
        ({
            let offers = offers_of(w, key_order(w.firms))->Ok_0;
            let ms = labor_month(w)->Ok_0.1;
            &&& forall|i: int| 0 <= i < ms.len() ==> offers.contains(#[trigger] ms[i])
            &&& forall|i: int| 0 <= i < offers.len() ==> offer_sound(w, #[trigger] offers[i])
            &&& strictly_ranked(ms)
        }),
{
    let ks = key_order(w.firms);
    assert forall|j: int| 0 <= j < ks.len() implies w.firms.contains_key(#[trigger] ks[j]) by {
        assert(ks.to_set().contains(ks[j]));
    }
    lemma_offers_sound(w, ks);
    let offers = offers_of(w, ks)->Ok_0;
    lemma_ranked_elems(offers);
    lemma_ranked_sorted(offers);
    let r = ranked(offers);
    assert forall|i: int, j: int| 0 <= i < j < offers.len() implies (#[trigger] offers[i]).firm != (#[trigger] offers[j]).firm by {
        assert(offers[i].firm@ < offers[j].firm@);
    }
    lemma_ranked_distinct(offers);
    assert forall|i: int, j: int| 0 <= i < j < r.len() implies ranks_before(#[trigger] r[i], #[trigger] r[j]) by {
        assert(!ranks_before(r[j], r[i]));
        assert(r[i].firm != r[j].firm);
    }
    let v1 = training_months(w, key_order(w.workforce_training));
    lemma_matches_ranked(v1, r);
    let ms = labor_month(w)->Ok_0.1;
    assert forall|i: int| 0 <= i < ms.len() implies offers.contains(#[trigger] ms[i]) by {
        assert(r.contains(ms[i]));
        let j = choose|j: int| 0 <= j < r.len() && r[j] == ms[i];
        assert(offers.contains(r[j]));
    }
}

} // verus!
