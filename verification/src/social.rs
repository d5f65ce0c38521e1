use vstd::prelude::*;
use std::collections::BTreeMap;

use crate::cohort::{EmploymentStatus, HouseholdCohort};
use crate::event::{DomainEvent, EventEnvelope};
use crate::ids::CohortId;
use crate::ordered::{is_key_order, is_triple_key_order, key_order, keys_in_order, triple_key_order, triple_keys_in_order};
use crate::time::SimDate;
use crate::value::{BasisPoints, Money, QuantityMilli};
use crate::world::{World, WorldError, WorldView};

verus! {

/// Consecutive months of hardship a household cohort has lived through.
#[derive(Clone, Copy, Debug, Default, PartialEq, Eq, Structural)]
pub struct CohortExperience {
    pub survival_shortage_months: u32,
    pub unemployment_months: u32,
    pub debt_distress_months: u32,
}

impl CohortExperience {
    pub fn survival_shortage_months(self) -> (r: u32)
        ensures
            r == self.survival_shortage_months,
    {
        self.survival_shortage_months
    }

    pub fn unemployment_months(self) -> (r: u32)
        ensures
            r == self.unemployment_months,
    {
        self.unemployment_months
    }

    pub fn debt_distress_months(self) -> (r: u32)
        ensures
            r == self.debt_distress_months,
    {
        self.debt_distress_months
    }
}

/// A cohort's current health risk and unrest pressure.
#[derive(Clone, Copy, Debug, PartialEq, Eq, Structural)]
pub struct SocialStress {
    pub health_risk: BasisPoints,
    pub unrest_pressure: BasisPoints,
}

impl SocialStress {
    pub fn health_risk(self) -> (r: BasisPoints)
        ensures
            r == self.health_risk,
    {
        self.health_risk
    }

    pub fn unrest_pressure(self) -> (r: BasisPoints)
        ensures
            r == self.unrest_pressure,
    {
        self.unrest_pressure
    }
}

/// The accumulated health burden and unrest memory of a cohort.
#[derive(Clone, Copy, Debug, PartialEq, Eq, Structural)]
pub struct SocialStressMemory {
    pub health_burden: BasisPoints,
    pub unrest_memory: BasisPoints,
}

impl SocialStressMemory {
    pub fn health_burden(self) -> (r: BasisPoints)
        ensures
            r == self.health_burden,
    {
        self.health_burden
    }

    pub fn unrest_memory(self) -> (r: BasisPoints)
        ensures
            r == self.unrest_memory,
    {
        self.unrest_memory
    }
}

broadcast use {
    vstd::std_specs::btree::group_btree_axioms,
    BasisPoints::lemma_spec_from_view,
    BasisPoints::lemma_from_own_view,
};

/// What the entries `ks` of `m` hold for cohort `c` at the survival tier.
pub open spec fn survival_total(m: Map<(u32, u32, u32), QuantityMilli>, ks: Seq<(u32, u32, u32)>, c: u32) -> int
    decreases ks.len(),
{
    if ks.len() == 0 {
        0
    } else {
        survival_total(m, ks.drop_last(), c) + if ks.last().0 == c && ks.last().2 == 0 {
            m[ks.last()]@ as int
        } else {
            0int
        }
    }
}

/// Whether key `k` is a survival-tier entry of cohort `c`.
spec fn survival_key_of(c: u32) -> spec_fn((u32, u32, u32)) -> bool {
    |k: (u32, u32, u32)| k.0 == c && k.2 == 0
}

/// The survival total over `ks` is the total over its survival-tier entries of `c`.
proof fn lemma_survival_filter(m: Map<(u32, u32, u32), QuantityMilli>, ks: Seq<(u32, u32, u32)>, c: u32)
    ensures
        survival_total(m, ks, c) == survival_total(m, ks.filter(survival_key_of(c)), c),
    decreases ks.len(),
{
    reveal(Seq::filter);
    if ks.len() > 0 {
        let p = survival_key_of(c);
        let init = ks.drop_last();
        lemma_survival_filter(m, init, c);
        let f0 = init.filter(p);
        if p(ks.last()) {
            assert(ks.filter(p) == f0.push(ks.last()));
            assert(f0.push(ks.last()).drop_last() =~= f0);
        } else {
            assert(ks.filter(p) == f0);
        }
    }
}

/// Filtering an increasing sequence keeps it increasing, keeps exactly the elements
/// that pass, and keeps nothing else.
proof fn lemma_filter_keys(s: Seq<(u32, u32, u32)>, p: spec_fn((u32, u32, u32)) -> bool)
    requires
        crate::ordered::triples_increasing(s),
    ensures
        crate::ordered::triples_increasing(s.filter(p)),
        forall|x: (u32, u32, u32)| s.filter(p).contains(x) <==> s.contains(x) && p(x),
    decreases s.len(),
{
    reveal(Seq::filter);
    if s.len() > 0 {
        let init = s.drop_last();
        assert(crate::ordered::triples_increasing(init)) by {
            assert forall|i: int, j: int| 0 <= i < j < init.len() implies crate::ordered::triple_lt(init[i], init[j]) by {
                assert(init[i] == s[i] && init[j] == s[j]);
            }
        }
        lemma_filter_keys(init, p);
        let f0 = init.filter(p);
        let x = s.last();
        assert forall|y: (u32, u32, u32)| s.contains(y) <==> init.contains(y) || y == x by {
            if s.contains(y) {
                let j = choose|j: int| 0 <= j < s.len() && s[j] == y;
                if j < s.len() - 1 {
                    assert(init[j] == y);
                }
            }
            if init.contains(y) {
                let j = choose|j: int| 0 <= j < init.len() && init[j] == y;
                assert(s[j] == y);
            }
            if y == x {
                assert(s[s.len() - 1] == x);
            }
        }
        if p(x) {
            let f = f0.push(x);
            assert(s.filter(p) == f);
            assert forall|i: int, j: int| 0 <= i < j < f.len() implies crate::ordered::triple_lt(f[i], f[j]) by {
                if j == f.len() - 1 {
                    assert(f0.contains(f0[i]));
                    assert(init.contains(f0[i]));
                    let k = choose|k: int| 0 <= k < init.len() && init[k] == f0[i];
                    assert(s[k] == init[k]);
                    assert(crate::ordered::triple_lt(s[k], s[s.len() - 1]));
                } else {
                    assert(f[i] == f0[i] && f[j] == f0[j]);
                }
            }
            assert forall|y: (u32, u32, u32)| f.contains(y) <==> f0.contains(y) || y == x by {
                if f.contains(y) {
                    let j = choose|j: int| 0 <= j < f.len() && f[j] == y;
                    if j < f.len() - 1 {
                        assert(f0[j] == y);
                    }
                }
                if f0.contains(y) {
                    let j = choose|j: int| 0 <= j < f0.len() && f0[j] == y;
                    assert(f[j] == y);
                }
                if y == x {
                    assert(f[f.len() - 1] == x);
                }
            }
        } else {
            assert(s.filter(p) == f0);
        }
    }
}

/// Survival totals over the same keys agree where the values agree on them.
proof fn lemma_survival_values_agree(
    m1: Map<(u32, u32, u32), QuantityMilli>,
    m2: Map<(u32, u32, u32), QuantityMilli>,
    ks: Seq<(u32, u32, u32)>,
    c: u32,
)
    requires
        forall|j: int| 0 <= j < ks.len() ==> m1[#[trigger] ks[j]] == m2[ks[j]],
    ensures
        survival_total(m1, ks, c) == survival_total(m2, ks, c),
    decreases ks.len(),
{
    if ks.len() > 0 {
        let init = ks.drop_last();
        assert forall|j: int| 0 <= j < init.len() implies m1[#[trigger] init[j]] == m2[init[j]] by {
            assert(init[j] == ks[j]);
        }
        lemma_survival_values_agree(m1, m2, init, c);
        assert(m1[ks[ks.len() - 1]] == m2[ks[ks.len() - 1]]);
    }
}

/// Two ledgers that hold the same survival-tier entries of cohort `c` give it the same
/// survival total.
proof fn lemma_survival_totals_agree(m1: Map<(u32, u32, u32), QuantityMilli>, m2: Map<(u32, u32, u32), QuantityMilli>, c: u32)
    requires
        is_triple_key_order(m1, triple_key_order(m1)),
        is_triple_key_order(m2, triple_key_order(m2)),
        forall|k: (u32, u32, u32)|
            k.0 == c && k.2 == 0 ==> (#[trigger] m1.contains_key(k) <==> m2.contains_key(k)) && (m1.contains_key(k)
                ==> m1[k] == m2[k]),
    ensures
        survival_total(m1, triple_key_order(m1), c) == survival_total(m2, triple_key_order(m2), c),
{
    let p = survival_key_of(c);
    let k1 = triple_key_order(m1);
    let k2 = triple_key_order(m2);
    lemma_survival_filter(m1, k1, c);
    lemma_survival_filter(m2, k2, c);
    lemma_filter_keys(k1, p);
    lemma_filter_keys(k2, p);
    let f1 = k1.filter(p);
    let f2 = k2.filter(p);
    assert forall|x: (u32, u32, u32)| f1.to_set().contains(x) <==> f2.to_set().contains(x) by {
        assert(k1.to_set().contains(x) <==> m1.contains_key(x));
        assert(k2.to_set().contains(x) <==> m2.contains_key(x));
        assert(f1.contains(x) <==> k1.contains(x) && p(x));
        assert(f2.contains(x) <==> k2.contains(x) && p(x));
        if p(x) {
            assert(m1.contains_key(x) <==> m2.contains_key(x));
        }
    }
    assert(f1.to_set() =~= f2.to_set());
    crate::ordered::lemma_triples_increasing_unique(f1, f2);
    assert forall|j: int| 0 <= j < f1.len() implies m1[#[trigger] f1[j]] == m2[f1[j]] by {
        assert(f1.contains(f1[j]));
        assert(k1.contains(f1[j]) && p(f1[j]));
        assert(k1.to_set().contains(f1[j]));
    }
    lemma_survival_values_agree(m1, m2, f1, c);
}

/// A cohort's health risk reads only its survival-tier entries: two worlds whose month's
/// consumption and unmet demand hold the same survival-tier entries of the cohort give
/// it the same health risk, whatever their other tiers and cohorts hold.
pub proof fn lemma_health_risk_reads_survival_only(w1: WorldView, w2: WorldView, c: u32)
    requires
        is_triple_key_order(w1.monthly_consumption, triple_key_order(w1.monthly_consumption)),
        is_triple_key_order(w1.unmet_demand, triple_key_order(w1.unmet_demand)),
        is_triple_key_order(w2.monthly_consumption, triple_key_order(w2.monthly_consumption)),
        is_triple_key_order(w2.unmet_demand, triple_key_order(w2.unmet_demand)),
        forall|k: (u32, u32, u32)|
            k.0 == c && k.2 == crate::demand::tier_rank(crate::demand::NeedTier::Survival) ==> (
            #[trigger] w1.monthly_consumption.contains_key(k) <==> w2.monthly_consumption.contains_key(k))
                && (w1.monthly_consumption.contains_key(k) ==> w1.monthly_consumption[k] == w2.monthly_consumption[k]),
        forall|k: (u32, u32, u32)|
            k.0 == c && k.2 == crate::demand::tier_rank(crate::demand::NeedTier::Survival) ==> (
            #[trigger] w1.unmet_demand.contains_key(k) <==> w2.unmet_demand.contains_key(k)) && (w1.unmet_demand.contains_key(k)
                ==> w1.unmet_demand[k] == w2.unmet_demand[k]),
    ensures
        health_risk_of(w1, c) == health_risk_of(w2, c),
{
    lemma_survival_totals_agree(w1.monthly_consumption, w2.monthly_consumption, c);
    lemma_survival_totals_agree(w1.unmet_demand, w2.unmet_demand, c);
}

/// A cohort none of whose survival needs went unmet carries no health risk, whatever
/// went unmet at other tiers.
pub proof fn lemma_no_unmet_survival_no_health_risk(w: WorldView, c: u32)
    requires
        is_triple_key_order(w.unmet_demand, triple_key_order(w.unmet_demand)),
        forall|k: (u32, u32, u32)|
            #[trigger] w.unmet_demand.contains_key(k) && k.0 == c ==> k.2 != crate::demand::tier_rank(
                crate::demand::NeedTier::Survival,
            ),
    ensures
        health_risk_of(w, c) == 0,
{
    let ks = triple_key_order(w.unmet_demand);
    let p = survival_key_of(c);
    lemma_survival_filter(w.unmet_demand, ks, c);
    lemma_filter_keys(ks, p);
    let f = ks.filter(p);
    if f.len() > 0 {
        assert(f.contains(f[0]));
        assert(ks.contains(f[0]) && p(f[0]));
        assert(ks.to_set().contains(f[0]));
        assert(false);
    }
    assert(survival_total(w.unmet_demand, f, c) == 0);
    let met = survival_total(w.monthly_consumption, triple_key_order(w.monthly_consumption), c);
    assert(met == 0 || 0int / met == 0) by (nonlinear_arith);
}

/// A cohort's health risk: the share of its survival needs that stayed unmet this month,
/// none where it had none.
pub open spec fn health_risk_of(w: WorldView, c: u32) -> int {
    let met = survival_total(w.monthly_consumption, triple_key_order(w.monthly_consumption), c);
    let unmet = survival_total(w.unmet_demand, triple_key_order(w.unmet_demand), c);
    if met + unmet == 0 {
        0
    } else {
        unmet * 10_000 / (met + unmet)
    }
}

/// A cohort's social stress: its health risk, and its deprivation pressure as unrest.
pub open spec fn stress_of(w: WorldView, c: u32) -> SocialStress {
    SocialStress {
        health_risk: BasisPoints::spec_from(health_risk_of(w, c) as u16),
        unrest_pressure: if w.deprivation_pressure.contains_key(c) {
            w.deprivation_pressure[c]
        } else {
            BasisPoints::spec_from(0)
        },
    }
}

/// The social stress of every cohort.
pub open spec fn stress_map(w: WorldView) -> Map<u32, SocialStress> {
    Map::new(|c: u32| w.cohorts.contains_key(c), |c: u32| stress_of(w, c))
}

/// The stress events of the cohorts `ks`, in turn.
pub open spec fn stress_events(events: Seq<EventEnvelope>, date: SimDate, m: Map<u32, SocialStress>, ks: Seq<u32>) -> Seq<
    EventEnvelope,
>
    decreases ks.len(),
{
    if ks.len() == 0 {
        events
    } else {
        stress_events(events, date, m, ks.drop_last()).push(
            EventEnvelope {
                date,
                event: DomainEvent::SocialStressUpdated {
                    cohort: CohortId(ks.last()),
                    health_risk: m[ks.last()].health_risk,
                    unrest_pressure: m[ks.last()].unrest_pressure,
                },
            },
        )
    }
}

/// The world after deriving the month's social stress: each cohort's stress recorded and
/// reported, in id order.
pub open spec fn stressed(w: WorldView) -> WorldView {
    WorldView {
        social_stress: stress_map(w),
        events: stress_events(w.events, w.date, stress_map(w), key_order(w.cohorts)),
        ..w
    }
}

/// A stress memory after a month: three quarters of what it was, one quarter of the
/// current stress.
pub open spec fn remembered(previous: Option<SocialStressMemory>, current: SocialStress) -> SocialStressMemory {
    let (h, u) = match previous {
        Some(p) => (p.health_burden@ as int, p.unrest_memory@ as int),
        None => (0, 0),
    };
    SocialStressMemory {
        health_burden: BasisPoints::spec_from(((h * 3 + current.health_risk@) / 4) as u16),
        unrest_memory: BasisPoints::spec_from(((u * 3 + current.unrest_pressure@) / 4) as u16),
    }
}

/// The stress memory of every cohort with a current stress.
pub open spec fn memory_map(w: WorldView) -> Map<u32, SocialStressMemory> {
    Map::new(
        |c: u32| w.social_stress.contains_key(c),
        |c: u32|
            remembered(
                if w.social_stress_memory.contains_key(c) {
                    Some(w.social_stress_memory[c])
                } else {
                    None
                },
                w.social_stress[c],
            ),
    )
}

/// Whether a cohort went short of a survival need this month.
pub open spec fn survival_shortage(w: WorldView, c: u32) -> bool {
    exists|k: (u32, u32, u32)|
        #[trigger] w.unmet_demand.contains_key(k) && k.0 == c && k.2 == 0 && w.unmet_demand[k]@ > 0
}

/// A duration after a month: one more while the condition holds (refused past `u32`),
/// else none.
pub open spec fn streak(previous: u32, active: bool, what: &'static str) -> Result<u32, WorldError> {
    if !active {
        Ok(0)
    } else if previous == u32::MAX {
        Err(WorldError::ArithmeticOverflow(what))
    } else {
        Ok((previous + 1) as u32)
    }
}

/// A cohort's experience after a month: how long it has gone short of survival needs, been
/// unemployed, and owed more than it holds.
pub open spec fn experience_step(exp: Map<u32, CohortExperience>, w: WorldView, id: u32) -> Result<
    Map<u32, CohortExperience>,
    WorldError,
> {
    let row = if exp.contains_key(id) {
        exp[id]
    } else {
        CohortExperience { survival_shortage_months: 0, unemployment_months: 0, debt_distress_months: 0 }
    };
    let c = w.cohorts[id];
    match streak(row.survival_shortage_months, survival_shortage(w, id), "survival shortage duration") {
        Err(e) => Err(e),
        Ok(s) => match streak(row.unemployment_months, c.employment == EmploymentStatus::Unemployed, "unemployment duration") {
            Err(e) => Err(e),
            Ok(u) => match streak(row.debt_distress_months, c.debt@ > c.liquid_wealth@, "debt distress duration") {
                Err(e) => Err(e),
                Ok(d) => Ok(
                    exp.insert(
                        id,
                        CohortExperience { survival_shortage_months: s, unemployment_months: u, debt_distress_months: d },
                    ),
                ),
            },
        },
    }
}

/// The experiences after the cohorts `ks` took their month in turn.
pub open spec fn experience_steps(exp: Map<u32, CohortExperience>, w: WorldView, ks: Seq<u32>) -> Result<
    Map<u32, CohortExperience>,
    WorldError,
>
    decreases ks.len(),
{
    if ks.len() == 0 {
        Ok(exp)
    } else {
        match experience_steps(exp, w, ks.drop_last()) {
            Err(e) => Err(e),
            Ok(m) => experience_step(m, w, ks.last()),
        }
    }
}

/// The experience events of the cohorts `ks`, in turn.
pub open spec fn experience_events(
    events: Seq<EventEnvelope>,
    date: SimDate,
    m: Map<u32, CohortExperience>,
    ks: Seq<u32>,
) -> Seq<EventEnvelope>
    decreases ks.len(),
{
    if ks.len() == 0 {
        events
    } else {
        experience_events(events, date, m, ks.drop_last()).push(
            EventEnvelope {
                date,
                event: DomainEvent::CohortExperienceUpdated {
                    cohort: CohortId(ks.last()),
                    survival_shortage_months: m[ks.last()].survival_shortage_months,
                    unemployment_months: m[ks.last()].unemployment_months,
                    debt_distress_months: m[ks.last()].debt_distress_months,
                },
            },
        )
    }
}

/// The outcome of updating the month's cohort experience: refused when it was already
/// updated this month or a duration would pass `u32`; else every cohort's experience
/// updated, the month marked, and every recorded experience reported in id order.
pub open spec fn experienced(w: WorldView) -> Result<WorldView, WorldError> {
    if w.last_cohort_experience_date == Some(w.date) {
        Err(WorldError::MonthlyStageAlreadyExecuted { stage: "cohort experience", date: w.date })
    } else {
        match experience_steps(w.cohort_experience, w, key_order(w.cohorts)) {
            Err(e) => Err(e),
            Ok(m) => Ok(
                WorldView {
                    cohort_experience: m,
                    last_cohort_experience_date: Some(w.date),
                    events: experience_events(w.events, w.date, m, key_order(m)),
                    ..w
                },
            ),
        }
    }
}

/// What a month-ledger holds for a cohort at the survival tier (see `survival_total`).
fn survival_total_of(m: &BTreeMap<(u32, u32, u32), QuantityMilli>, c: u32) -> (r: u128)
    requires
        m@.dom().len() <= 0x8000_0000_0000,
    ensures
        r as int == survival_total(m@, triple_key_order(m@), c),
        r <= 0x8000_0000_0000 * 0xffff_ffff_ffff_ffff,
{
    let ks = triple_keys_in_order(m);
    let mut total: u128 = 0;
    let mut i: usize = 0;
    while i < ks.len()
        invariant
            ks@ == triple_key_order(m@),
            ks@.len() <= 0x8000_0000_0000,
            forall|j: int| 0 <= j < ks@.len() ==> m@.contains_key(#[trigger] ks@[j]),
            i <= ks.len(),
            total as int == survival_total(m@, ks@.take(i as int), c),
            total <= i * 0xffff_ffff_ffff_ffff,
        decreases ks.len() - i,
    {
        let k = ks[i];
        proof {
            assert(ks@.take(i + 1).drop_last() =~= ks@.take(i as int));
            assert(ks@.take(i + 1).last() == k);
            assert(m@.contains_key(ks@[i as int]));
        }
        if k.0 == c && k.2 == 0 {
            total = total + m.get(&k).unwrap().get() as u128;
        }
        i = i + 1;
    }
    proof {
        assert(ks@.take(ks@.len() as int) =~= ks@);
    }
    total
}

impl World {
    /// Derives each cohort's health risk and unrest pressure from the month's settled
    /// consumption, unmet demand and deprivation (see `stressed`).
    pub fn derive_monthly_social_stress(&mut self) -> (r: Result<(), WorldError>)
        requires
            old(self)@.monthly_consumption.dom().len() <= 0x8000_0000_0000,
            old(self)@.unmet_demand.dom().len() <= 0x8000_0000_0000,
        ensures
            r is Ok,
            final(self)@ == stressed(old(self)@),
    {
        let ghost w0 = self@;
        let ids = keys_in_order(&self.cohorts);
        let mut stress: BTreeMap<u32, SocialStress> = BTreeMap::new();
        let mut i: usize = 0;
        while i < ids.len()
            invariant
                w0 == self@,
                w0.monthly_consumption.dom().len() <= 0x8000_0000_0000,
                w0.unmet_demand.dom().len() <= 0x8000_0000_0000,
                is_key_order(w0.cohorts, ids@),
                ids@ == key_order(w0.cohorts),
                forall|j: int| 0 <= j < ids@.len() ==> w0.cohorts.contains_key(#[trigger] ids@[j]),
                i <= ids.len(),
                stress@ == stress_map(w0).restrict(ids@.take(i as int).to_set()),
            decreases ids.len() - i,
        {
            let c = ids[i];
            let met = survival_total_of(&self.monthly_consumption, c);
            let unmet = survival_total_of(&self.unmet_demand, c);
            let total: u128 = met + unmet;
            let health: u16 = if total == 0 {
                0
            } else {
                proof {
                    let uu = unmet as int;
                    let tt = total as int;
                    assert(uu * 10_000 / tt <= 10_000) by (nonlinear_arith)
                        requires
                            0 <= uu <= tt,
                            tt > 0,
                    ;
                    assert(uu * 10_000 <= 0x8000_0000_0000 * 0xffff_ffff_ffff_ffff * 10_000) by (nonlinear_arith)
                        requires
                            0 <= uu <= 0x8000_0000_0000 * 0xffff_ffff_ffff_ffff,
                    ;
                }
                (unmet * 10_000 / total) as u16
            };
            let unrest = match self.deprivation_pressure.get(&c) {
                Some(p) => *p,
                None => BasisPoints::zero(),
            };
            let row = SocialStress { health_risk: BasisPoints::from_bounded(health), unrest_pressure: unrest };
            proof {
                assert(row == stress_of(w0, c));
            }
            stress.insert(c, row);
            proof {
                assert(ids@.take(i + 1) =~= ids@.take(i as int).push(c));
                ids@.take(i as int).lemma_push_to_set_commute(c);
                assert(stress@ =~= stress_map(w0).restrict(ids@.take(i + 1).to_set()));
            }
            i = i + 1;
        }
        proof {
            assert(ids@.take(ids@.len() as int) =~= ids@);
            assert(stress@ =~= stress_map(w0));
        }
        self.social_stress = stress;
        let mut j: usize = 0;
        while j < ids.len()
            invariant
                ids@ == key_order(w0.cohorts),
                forall|t: int| 0 <= t < ids@.len() ==> w0.cohorts.contains_key(#[trigger] ids@[t]),
                j <= ids.len(),
                self@ == (WorldView {
                    social_stress: stress_map(w0),
                    events: stress_events(w0.events, w0.date, stress_map(w0), ids@.take(j as int)),
                    ..w0
                }),
            decreases ids.len() - j,
        {
            let c = ids[j];
            proof {
                assert(ids@.take(j + 1).drop_last() =~= ids@.take(j as int));
                assert(ids@.take(j + 1).last() == c);
                assert(w0.cohorts.contains_key(ids@[j as int]));
            }
            let row = *self.social_stress.get(&c).unwrap();
            self.events.append(
                self.date,
                DomainEvent::SocialStressUpdated {
                    cohort: CohortId::new(c),
                    health_risk: row.health_risk,
                    unrest_pressure: row.unrest_pressure,
                },
            );
            j = j + 1;
        }
        proof {
            assert(ids@.take(ids@.len() as int) =~= ids@);
        }
        Ok(())
    }

    /// Carries each cohort's stress into its memory: three quarters of the memory, one
    /// quarter of the current stress (see `memory_map`).
    pub fn accumulate_monthly_social_stress(&mut self) -> (r: Result<(), WorldError>)
        ensures
            r is Ok,
            final(self)@ == (WorldView { social_stress_memory: memory_map(old(self)@), ..old(self)@ }),
    {
        let ghost w0 = self@;
        let ids = keys_in_order(&self.social_stress);
        let mut memory: BTreeMap<u32, SocialStressMemory> = BTreeMap::new();
        let mut i: usize = 0;
        while i < ids.len()
            invariant
                w0 == self@,
                is_key_order(w0.social_stress, ids@),
                forall|j: int| 0 <= j < ids@.len() ==> w0.social_stress.contains_key(#[trigger] ids@[j]),
                i <= ids.len(),
                memory@ == memory_map(w0).restrict(ids@.take(i as int).to_set()),
            decreases ids.len() - i,
        {
            let c = ids[i];
            proof {
                assert(w0.social_stress.contains_key(ids@[i as int]));
            }
            let current = *self.social_stress.get(&c).unwrap();
            let (h, u): (u32, u32) = match self.social_stress_memory.get(&c) {
                Some(p) => (p.health_burden.get() as u32, p.unrest_memory.get() as u32),
                None => (0, 0),
            };
            let health: u32 = (h * 3 + current.health_risk.get() as u32) / 4;
            let unrest: u32 = (u * 3 + current.unrest_pressure.get() as u32) / 4;
            let row = SocialStressMemory {
                health_burden: BasisPoints::from_bounded(health as u16),
                unrest_memory: BasisPoints::from_bounded(unrest as u16),
            };
            proof {
                assert(row == memory_map(w0)[c]);
            }
            memory.insert(c, row);
            proof {
                assert(ids@.take(i + 1) =~= ids@.take(i as int).push(c));
                ids@.take(i as int).lemma_push_to_set_commute(c);
                assert(memory@ =~= memory_map(w0).restrict(ids@.take(i + 1).to_set()));
            }
            i = i + 1;
        }
        proof {
            assert(ids@.take(ids@.len() as int) =~= ids@);
            assert(memory@ =~= memory_map(w0));
        }
        self.social_stress_memory = memory;
        Ok(())
    }

    /// Whether a cohort went short of a survival need this month.
    fn survival_shortage_of(&self, c: u32) -> (r: bool)
        ensures
            r == survival_shortage(self@, c),
    {
        let ks = triple_keys_in_order(&self.unmet_demand);
        let mut i: usize = 0;
        while i < ks.len()
            invariant
                is_triple_key_order(self@.unmet_demand, ks@),
                forall|j: int| 0 <= j < ks@.len() ==> self@.unmet_demand.contains_key(#[trigger] ks@[j]),
                i <= ks.len(),
                forall|j: int|
                    0 <= j < i ==> !((#[trigger] ks@[j]).0 == c && ks@[j].2 == 0 && self@.unmet_demand[ks@[j]]@ > 0),
            decreases ks.len() - i,
        {
            let k = ks[i];
            proof {
                assert(self@.unmet_demand.contains_key(ks@[i as int]));
            }
            if k.0 == c && k.2 == 0 && self.unmet_demand.get(&k).unwrap().get() > 0 {
                return true;
            }
            i = i + 1;
        }
        proof {
            assert forall|k: (u32, u32, u32)| #[trigger] self@.unmet_demand.contains_key(k) implies !(k.0 == c && k.2 == 0
                && self@.unmet_demand[k]@ > 0) by {
                assert(ks@.to_set().contains(k));
                let t = choose|t: int| 0 <= t < ks@.len() && ks@[t] == k;
            }
        }
        false
    }

    /// Updates how long each cohort has gone short of survival needs, been unemployed and
    /// owed more than it holds (see `experienced`); an error changes nothing.
    pub fn update_monthly_cohort_experience(&mut self) -> (r: Result<(), WorldError>)
        ensures
            match experienced(old(self)@) {
                Err(e) => r == Err::<(), WorldError>(e) && final(self)@ == old(self)@,
                Ok(w2) => r is Ok && final(self)@ == w2,
            },
    {
        if self.last_cohort_experience_date == Some(self.date) {
            return Err(WorldError::MonthlyStageAlreadyExecuted { stage: "cohort experience", date: self.date });
        }
        let ghost w0 = self@;
        let ids = keys_in_order(&self.cohorts);
        let mut next = self.cohort_experience.clone();
        let mut i: usize = 0;
        while i < ids.len()
            invariant
                w0 == self@,
                w0 == old(self)@,
                w0.last_cohort_experience_date != Some(w0.date),
                ids@ == key_order(w0.cohorts),
                forall|j: int| 0 <= j < ids@.len() ==> w0.cohorts.contains_key(#[trigger] ids@[j]),
                i <= ids.len(),
                experience_steps(w0.cohort_experience, w0, ids@.take(i as int)) == Ok::<
                    Map<u32, CohortExperience>,
                    WorldError,
                >(next@),
            decreases ids.len() - i,
        {
            let id = ids[i];
            proof {
                assert(ids@.take(i + 1).drop_last() =~= ids@.take(i as int));
                assert(ids@.take(i + 1).last() == id);
                assert(w0.cohorts.contains_key(ids@[i as int]));
            }
            let row = match next.get(&id) {
                Some(r) => *r,
                None => CohortExperience { survival_shortage_months: 0, unemployment_months: 0, debt_distress_months: 0 },
            };
            let c = *self.cohorts.get(&id).unwrap();
            let short = self.survival_shortage_of(id);
            let s: u32 = if short {
                if row.survival_shortage_months == u32::MAX {
                    proof {
                        lemma_experience_err_sticks(w0.cohort_experience, w0, ids@, i + 1);
                    }
                    return Err(WorldError::ArithmeticOverflow("survival shortage duration"));
                }
                row.survival_shortage_months + 1
            } else {
                0
            };
            let u: u32 = if c.employment == EmploymentStatus::Unemployed {
                if row.unemployment_months == u32::MAX {
                    proof {
                        lemma_experience_err_sticks(w0.cohort_experience, w0, ids@, i + 1);
                    }
                    return Err(WorldError::ArithmeticOverflow("unemployment duration"));
                }
                row.unemployment_months + 1
            } else {
                0
            };
            let d: u32 = if c.debt.minor_units() > c.liquid_wealth.minor_units() {
                if row.debt_distress_months == u32::MAX {
                    proof {
                        lemma_experience_err_sticks(w0.cohort_experience, w0, ids@, i + 1);
                    }
                    return Err(WorldError::ArithmeticOverflow("debt distress duration"));
                }
                row.debt_distress_months + 1
            } else {
                0
            };
            next.insert(id, CohortExperience { survival_shortage_months: s, unemployment_months: u, debt_distress_months: d });
            i = i + 1;
        }
        proof {
            assert(ids@.take(ids@.len() as int) =~= ids@);
        }
        let ghost m = next@;
        self.cohort_experience = next;
        self.last_cohort_experience_date = Some(self.date);
        let eids = keys_in_order(&self.cohort_experience);
        let mut j: usize = 0;
        while j < eids.len()
            invariant
                eids@ == key_order(m),
                forall|t: int| 0 <= t < eids@.len() ==> m.contains_key(#[trigger] eids@[t]),
                j <= eids.len(),
                self@ == (WorldView {
                    cohort_experience: m,
                    last_cohort_experience_date: Some(w0.date),
                    events: experience_events(w0.events, w0.date, m, eids@.take(j as int)),
                    ..w0
                }),
            decreases eids.len() - j,
        {
            let c = eids[j];
            proof {
                assert(eids@.take(j + 1).drop_last() =~= eids@.take(j as int));
                assert(eids@.take(j + 1).last() == c);
                assert(m.contains_key(eids@[j as int]));
            }
            let row = *self.cohort_experience.get(&c).unwrap();
            self.events.append(
                self.date,
                DomainEvent::CohortExperienceUpdated {
                    cohort: CohortId::new(c),
                    survival_shortage_months: row.survival_shortage_months,
                    unemployment_months: row.unemployment_months,
                    debt_distress_months: row.debt_distress_months,
                },
            );
            j = j + 1;
        }
        proof {
            assert(eids@.take(eids@.len() as int) =~= eids@);
        }
        Ok(())
    }

    /// The current social stress of each cohort.
    pub fn social_stress(&self) -> (r: &BTreeMap<u32, SocialStress>)
        ensures
            r@ == self@.social_stress,
    {
        &self.social_stress
    }

    /// The accumulated stress memory of each cohort.
    pub fn social_stress_memory(&self) -> (r: &BTreeMap<u32, SocialStressMemory>)
        ensures
            r@ == self@.social_stress_memory,
    {
        &self.social_stress_memory
    }

    /// The experience of each cohort.
    pub fn cohort_experience(&self) -> (r: &BTreeMap<u32, CohortExperience>)
        ensures
            r@ == self@.cohort_experience,
    {
        &self.cohort_experience
    }
}

proof fn lemma_experience_err_sticks(exp: Map<u32, CohortExperience>, w: WorldView, ks: Seq<u32>, k: int)
    requires
        0 <= k <= ks.len(),
        experience_steps(exp, w, ks.take(k)) is Err,
    ensures
        experience_steps(exp, w, ks) == experience_steps(exp, w, ks.take(k)),
    decreases ks.len() - k,
{
    if k < ks.len() {
        assert(ks.take(k + 1).drop_last() =~= ks.take(k));
        lemma_experience_err_sticks(exp, w, ks, k + 1);
    } else {
        assert(ks.take(k) =~= ks);
    }
}

} // verus!
