use vstd::prelude::*;
use std::collections::BTreeMap;

use crate::ids::{CohortId, RegionId};
use crate::ordered::{is_key_order, key_order, keys_in_order};
use crate::value::{Money, Population};
use crate::world::{World, WorldError, WorldView};

verus! {

broadcast use Population::lemma_spec_from_view, Population::lemma_from_own_view, Money::lemma_spec_from_view, Money::lemma_from_own_view;

/// The age band of a household cohort.
#[derive(Clone, Copy, Debug, PartialEq, Eq, Structural)]
pub enum AgeBand {
    Child,
    Adult,
    Mature,
    Senior,
}

/// The highest education a cohort's members completed, from none up to tertiary.
#[derive(Clone, Copy, Debug, PartialEq, Eq, Structural)]
pub enum EducationLevel {
    NoSchooling,
    Basic,
    Secondary,
    Vocational,
    Tertiary,
}

/// The rank of an education level: higher levels qualify for more.
pub open spec fn education_rank(e: EducationLevel) -> int {
    match e {
        EducationLevel::NoSchooling => 0,
        EducationLevel::Basic => 1,
        EducationLevel::Secondary => 2,
        EducationLevel::Vocational => 3,
        EducationLevel::Tertiary => 4,
    }
}

/// The rank of an education level (see `education_rank`).
pub fn education_rank_of(e: EducationLevel) -> (r: u32)
    ensures
        r as int == education_rank(e),
{
    match e {
        EducationLevel::NoSchooling => 0,
        EducationLevel::Basic => 1,
        EducationLevel::Secondary => 2,
        EducationLevel::Vocational => 3,
        EducationLevel::Tertiary => 4,
    }
}

/// Whether a household cohort's workers are employed.
#[derive(Clone, Copy, Debug, PartialEq, Eq, Structural)]
pub enum EmploymentStatus {
    Employed,
    Unemployed,
}

/// A group of households living in one region: how many people and households it holds,
/// their age band, employment and annual income, and their liquid wealth and debt.
#[derive(Clone, Copy, Debug, PartialEq, Eq, Structural)]
pub struct HouseholdCohort {
    pub id: CohortId,
    pub region: RegionId,
    pub people: Population,
    pub households: u64,
    pub age_band: AgeBand,
    pub education: EducationLevel,
    pub employment: EmploymentStatus,
    pub annual_income: Money,
    pub liquid_wealth: Money,
    pub debt: Money,
}

impl HouseholdCohort {
    pub fn new(
        id: CohortId,
        region: RegionId,
        people: Population,
        households: u64,
        age_band: AgeBand,
        education: EducationLevel,
        employment: EmploymentStatus,
        annual_income: Money,
        liquid_wealth: Money,
        debt: Money,
    ) -> (r: Self)
        ensures
            r == (HouseholdCohort {
                id,
                region,
                people,
                households,
                age_band,
                education,
                employment,
                annual_income,
                liquid_wealth,
                debt,
            }),
    {
        HouseholdCohort {
            id,
            region,
            people,
            households,
            age_band,
            education,
            employment,
            annual_income,
            liquid_wealth,
            debt,
        }
    }

    /// Pays `amount` out of the cohort's liquid wealth; rejects an amount beyond it, or a
    /// negative amount whose credit would leave the currency, and then changes nothing.
    pub fn debit_wealth(&mut self, amount: Money) -> (r: Result<(), WorldError>)
        ensures
            match wealth_debit(*old(self), amount) {
                Err(e) => r == Err::<(), WorldError>(e) && *final(self) == *old(self),
                Ok(c) => r is Ok && *final(self) == c,
            },
    {
        if self.liquid_wealth.minor_units() < amount.minor_units() {
            return Err(WorldError::InsufficientHouseholdWealth(self.id));
        }
        if (self.liquid_wealth.minor_units() as i128) - (amount.minor_units() as i128) > i64::MAX as i128 {
            return Err(WorldError::ArithmeticOverflow("household wealth"));
        }
        self.liquid_wealth = Money::from_minor_units(self.liquid_wealth.minor_units() - amount.minor_units());
        Ok(())
    }

    pub fn education(self) -> (r: EducationLevel)
        ensures
            r == self.education,
    {
        self.education
    }

    pub fn age_band(self) -> (r: AgeBand)
        ensures
            r == self.age_band,
    {
        self.age_band
    }

    pub fn employment(self) -> (r: EmploymentStatus)
        ensures
            r == self.employment,
    {
        self.employment
    }

    pub fn annual_income(self) -> (r: Money)
        ensures
            r == self.annual_income,
    {
        self.annual_income
    }

    pub fn id(self) -> (r: CohortId)
        ensures
            r == self.id,
    {
        self.id
    }

    pub fn region(self) -> (r: RegionId)
        ensures
            r == self.region,
    {
        self.region
    }

    pub fn people(self) -> (r: Population)
        ensures
            r == self.people,
    {
        self.people
    }

    pub fn households(self) -> (r: u64)
        ensures
            r == self.households,
    {
        self.households
    }

    pub fn liquid_wealth(self) -> (r: Money)
        ensures
            r == self.liquid_wealth,
    {
        self.liquid_wealth
    }

    pub fn debt(self) -> (r: Money)
        ensures
            r == self.debt,
    {
        self.debt
    }
}

/// A cohort after paying `amount` out of its liquid wealth: refused beyond its wealth,
/// or where a negative amount would take the wealth past the currency.
pub open spec fn wealth_debit(c: HouseholdCohort, amount: Money) -> Result<HouseholdCohort, WorldError> {
    if c.liquid_wealth@ < amount@ {
        Err(WorldError::InsufficientHouseholdWealth(c.id))
    } else if c.liquid_wealth@ - amount@ > i64::MAX {
        Err(WorldError::ArithmeticOverflow("household wealth"))
    } else {
        Ok(HouseholdCohort { liquid_wealth: Money::spec_from((c.liquid_wealth@ - amount@) as i64), ..c })
    }
}

/// The people of the cohorts `ks` that live in region `region`.
pub open spec fn people_in(cohorts: Map<u32, HouseholdCohort>, ks: Seq<u32>, region: u32) -> int
    decreases ks.len(),
{
    if ks.len() == 0 {
        0
    } else {
        people_in(cohorts, ks.drop_last(), region) + if cohorts[ks.last()].region@ == region {
            cohorts[ks.last()].people@ as int
        } else {
            0int
        }
    }
}

/// The people of all cohorts living in region `region`.
pub open spec fn cohort_population(w: WorldView, region: u32) -> int {
    people_in(w.cohorts, key_order(w.cohorts), region)
}

/// The first region, in id order among `ks`, whose cohorts do not add up to its population:
/// an overflow when they exceed any representable population, else the mismatch.
pub open spec fn accounting_error(w: WorldView, ks: Seq<u32>) -> Option<WorldError>
    decreases ks.len(),
{
    if ks.len() == 0 {
        None
    } else {
        match accounting_error(w, ks.drop_last()) {
            Some(e) => Some(e),
            None => {
                let k = ks.last();
                let total = cohort_population(w, k);
                if total > u64::MAX {
                    Some(WorldError::ArithmeticOverflow("cohort population"))
                } else if total != w.regions[k].population@ {
                    Some(
                        WorldError::PopulationAccounting {
                            region: RegionId(k),
                            region_population: w.regions[k].population,
                            cohort_population: Population::spec_from(total as u64),
                        },
                    )
                } else {
                    None
                }
            },
        }
    }
}

/// An accounting error among the first regions stays the answer for longer prefixes.
proof fn lemma_accounting_error_sticks(w: WorldView, ks: Seq<u32>, k: int)
    requires
        0 <= k <= ks.len(),
        accounting_error(w, ks.take(k)) is Some,
    ensures
        accounting_error(w, ks) == accounting_error(w, ks.take(k)),
    decreases ks.len() - k,
{
    if k < ks.len() {
        assert(ks.take(k + 1).drop_last() =~= ks.take(k));
        lemma_accounting_error_sticks(w, ks, k + 1);
    } else {
        assert(ks.take(k) =~= ks);
    }
}

/// Without an accounting error, each region listed holds exactly its cohorts' people.
proof fn lemma_no_accounting_error(w: WorldView, ks: Seq<u32>)
    requires
        accounting_error(w, ks) is None,
    ensures
        forall|i: int| 0 <= i < ks.len() ==> w.regions[#[trigger] ks[i]].population@ == cohort_population(w, ks[i]),
    decreases ks.len(),
{
    if ks.len() > 0 {
        lemma_no_accounting_error(w, ks.drop_last());
        assert forall|i: int| 0 <= i < ks.len() implies w.regions[#[trigger] ks[i]].population@
            == cohort_population(w, ks[i]) by {
            if i < ks.len() - 1 {
                assert(ks[i] == ks.drop_last()[i]);
            }
        }
    }
}

/// A mismatching region among those listed leaves an accounting error.
proof fn lemma_mismatch_is_error(w: WorldView, ks: Seq<u32>, i: int)
    requires
        0 <= i < ks.len(),
        w.regions[ks[i]].population@ != cohort_population(w, ks[i]),
    ensures
        accounting_error(w, ks) is Some,
    decreases ks.len(),
{
    if i < ks.len() - 1 {
        assert(ks[i] == ks.drop_last()[i]);
        lemma_mismatch_is_error(w, ks.drop_last(), i);
    }
}

impl World {
    /// Adds a household cohort to a registered region; rejects a duplicate id or an unknown
    /// region and then changes nothing.
    pub fn register_household_cohort(&mut self, cohort: HouseholdCohort) -> (r: Result<(), WorldError>)
        ensures
            old(self)@.cohorts.contains_key(cohort.id@) ==> r == Err::<(), WorldError>(
                WorldError::DuplicateCohort(cohort.id),
            ) && final(self)@ == old(self)@,
            !old(self)@.cohorts.contains_key(cohort.id@) && !old(self)@.regions.contains_key(cohort.region@)
                ==> r == Err::<(), WorldError>(WorldError::UnknownRegion(cohort.region)) && final(self)@
                == old(self)@,
            !old(self)@.cohorts.contains_key(cohort.id@) && old(self)@.regions.contains_key(cohort.region@)
                ==> r is Ok && final(self)@ == (WorldView {
                cohorts: old(self)@.cohorts.insert(cohort.id@, cohort),
                ..old(self)@
            }),
    {
        if self.cohorts.contains_key(&cohort.id.get()) {
            return Err(WorldError::DuplicateCohort(cohort.id));
        }
        if !self.regions.contains_key(&cohort.region.get()) {
            return Err(WorldError::UnknownRegion(cohort.region));
        }
        self.cohorts.insert(cohort.id.get(), cohort);
        Ok(())
    }

    /// The household cohorts by id.
    pub fn household_cohorts(&self) -> (r: &BTreeMap<u32, HouseholdCohort>)
        ensures
            r@ == self@.cohorts,
    {
        &self.cohorts
    }

    /// The people of all cohorts living in `region`, or `None` when they exceed `u64`.
    fn cohort_population_of(&self, region: u32) -> (r: Option<u64>)
        ensures
            r is None <==> cohort_population(self@, region) > u64::MAX,
            r matches Some(t) ==> t as int == cohort_population(self@, region),
    {
        let ks = keys_in_order(&self.cohorts);
        let mut total: u128 = 0;
        let mut i: usize = 0;
        while i < ks.len()
            invariant
                ks@ == key_order(self@.cohorts),
                forall|j: int| 0 <= j < ks@.len() ==> self@.cohorts.contains_key(#[trigger] ks@[j]),
                i <= ks.len(),
                total as int == people_in(self@.cohorts, ks@.take(i as int), region),
                total <= i * 0xffff_ffff_ffff_ffffu128,
            decreases ks.len() - i,
        {
            let c = self.cohorts.get(&ks[i]).unwrap();
            proof {
                assert(ks@.take(i + 1).drop_last() =~= ks@.take(i as int));
            }
            if c.region.get() == region {
                total = total + c.people.people() as u128;
            }
            i = i + 1;
        }
        proof {
            assert(ks@.take(ks@.len() as int) =~= ks@);
        }
        if total > u64::MAX as u128 {
            None
        } else {
            Some(total as u64)
        }
    }

    /// Checks that every region's population is exactly the people of its household
    /// cohorts; reports the first region, in id order, where it is not.
    pub fn validate_population_accounting(&self) -> (r: Result<(), WorldError>)
        ensures
            r is Ok <==> forall|k: u32| #[trigger] self@.regions.contains_key(k) ==> self@.regions[k].population@
                == cohort_population(self@, k),
            r is Err ==> r == Err::<(), WorldError>(accounting_error(self@, key_order(self@.regions))->Some_0),
    {
        let ks = keys_in_order(&self.regions);
        let ghost w = self@;
        let mut i: usize = 0;
        while i < ks.len()
            invariant
                w == self@,
                ks@ == key_order(w.regions),
                is_key_order(w.regions, ks@),
                forall|j: int| 0 <= j < ks@.len() ==> w.regions.contains_key(#[trigger] ks@[j]),
                i <= ks.len(),
                accounting_error(w, ks@.take(i as int)) is None,
            decreases ks.len() - i,
        {
            let k = ks[i];
            let region = self.regions.get(&k).unwrap();
            proof {
                assert(ks@.take(i + 1).drop_last() =~= ks@.take(i as int));
                assert(ks@.take(i + 1).last() == k);
            }
            match self.cohort_population_of(k) {
                None => {
                    proof {
                        lemma_accounting_error_sticks(w, ks@, i + 1);
                        lemma_mismatch_is_error(w, ks@, i as int);
                    }
                    return Err(WorldError::ArithmeticOverflow("cohort population"));
                },
                Some(total) => {
                    if total != region.population.people() {
                        proof {
                            lemma_accounting_error_sticks(w, ks@, i + 1);
                            lemma_mismatch_is_error(w, ks@, i as int);
                        }
                        return Err(
                            WorldError::PopulationAccounting {
                                region: RegionId::new(k),
                                region_population: region.population,
                                cohort_population: Population::new(total),
                            },
                        );
                    }
                    proof {
                        assert(*region == w.regions[k]);
                        assert(cohort_population(w, k) == region.population@);
                        assert(accounting_error(w, ks@.take(i + 1)) is None);
                    }
                },
            }
            i = i + 1;
        }
        proof {
            assert(ks@.take(ks@.len() as int) =~= ks@);
            lemma_no_accounting_error(w, ks@);
            assert forall|k: u32| #[trigger] w.regions.contains_key(k) implies w.regions[k].population@
                == cohort_population(w, k) by {
                assert(ks@.to_set().contains(k));
                let j = choose|j: int| 0 <= j < ks@.len() && ks@[j] == k;
            }
        }
        Ok(())
    }
}

} // verus!
