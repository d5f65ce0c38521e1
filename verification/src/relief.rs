use vstd::prelude::*;
use std::collections::BTreeMap;

use crate::event::{DomainEvent, EventEnvelope};
use crate::ids::{ActorId, CohortId, CountryId};
use crate::ordered::{key_order, keys_in_order};
use crate::value::Money;
use crate::world::{
    holds_office_in, is_office_holder, Country, CountryIndicators, PowerNodeKind, World, WorldError,
    WorldView,
};

verus! {

/// One treasury-funded transfer responding to survival goods that were available but unaffordable.
#[derive(Clone, Copy, Debug, PartialEq, Eq)]
pub struct EmergencyReliefPayment {
    pub actor: ActorId,
    pub country: CountryId,
    pub cohort: CohortId,
    pub amount: Money,
    pub public_borrowing: Money,
}

/// How a government responds to unaffordable survival needs.
#[derive(Clone, Copy, Debug, PartialEq, Eq, Structural)]
pub enum EmergencyReliefStrategy {
    TreasuryOnly,
    BorrowWithinDebtLimit,
    Inaction,
}

/// How a government responds when a survival good is physically short.
#[derive(Clone, Copy, Debug, PartialEq, Eq, Structural)]
pub enum PhysicalShortageStrategy {
    /// Buyers are served in canonical market priority.
    MarketPriority,
    /// Every buyer of the short good receives a proportional survival quota.
    ProportionalRationing,
    /// Public reserves are released into the market.
    ReserveRelease,
}

/// A country's standing emergency-response policy.
#[derive(Clone, Copy, Debug, PartialEq, Eq, Structural)]
pub struct GovernmentEmergencyPolicy {
    pub strategy: EmergencyReliefStrategy,
    pub physical_shortage_strategy: PhysicalShortageStrategy,
}

impl Default for GovernmentEmergencyPolicy {
    /// Treasury-only relief.
    fn default() -> (r: Self)
        ensures
            r.strategy == EmergencyReliefStrategy::TreasuryOnly,
            r.physical_shortage_strategy == PhysicalShortageStrategy::MarketPriority,
    {
        GovernmentEmergencyPolicy {
            strategy: EmergencyReliefStrategy::TreasuryOnly,
            physical_shortage_strategy: PhysicalShortageStrategy::MarketPriority,
        }
    }
}

impl GovernmentEmergencyPolicy {
    pub fn new(strategy: EmergencyReliefStrategy) -> (r: Self)
        ensures
            r.strategy == strategy,
            r.physical_shortage_strategy == PhysicalShortageStrategy::MarketPriority,
    {
        GovernmentEmergencyPolicy { strategy, physical_shortage_strategy: PhysicalShortageStrategy::MarketPriority }
    }

    /// The same policy with another response to physical shortages.
    pub fn with_physical_shortage_strategy(self, shortage: PhysicalShortageStrategy) -> (r: Self)
        ensures
            r == (GovernmentEmergencyPolicy { physical_shortage_strategy: shortage, ..self }),
    {
        GovernmentEmergencyPolicy { physical_shortage_strategy: shortage, ..self }
    }

    pub fn physical_shortage_strategy(self) -> (r: PhysicalShortageStrategy)
        ensures
            r == self.physical_shortage_strategy,
    {
        self.physical_shortage_strategy
    }

    pub fn strategy(self) -> (r: EmergencyReliefStrategy)
        ensures
            r == self.strategy,
    {
        self.strategy
    }
}

/// The policy a country follows: its registered one, or treasury-only relief.
pub open spec fn policy_of(w: WorldView, country: CountryId) -> GovernmentEmergencyPolicy {
    if w.government_emergency_policies.contains_key(country@) {
        w.government_emergency_policies[country@]
    } else {
        GovernmentEmergencyPolicy {
            strategy: EmergencyReliefStrategy::TreasuryOnly,
            physical_shortage_strategy: PhysicalShortageStrategy::MarketPriority,
        }
    }
}

/// The annual output of the regions of `country` among the region ids `ks`.
pub open spec fn output_of(w: WorldView, country: CountryId, ks: Seq<u32>) -> int
    decreases ks.len(),
{
    if ks.len() == 0 {
        0
    } else {
        output_of(w, country, ks.drop_last()) + if w.regions[ks.last()].country == country {
            w.regions[ks.last()].annual_output@ as int
        } else {
            0
        }
    }
}

/// The annual output of all regions of a country.
pub open spec fn country_output(w: WorldView, country: CountryId) -> int {
    output_of(w, country, key_order(w.regions))
}

/// How much more emergency debt a country may issue: twice its output less its debt,
/// at least zero; an error when the country is unknown, when twice the output
/// overflows `i128` or when the headroom does not fit in `i64`.
pub open spec fn debt_headroom(w: WorldView, country: CountryId) -> Result<i64, WorldError> {
    let output = country_output(w, country);
    if !w.countries.contains_key(country@) {
        Err(WorldError::UnknownCountry(country))
    } else if output * 2 > i128::MAX || output * 2 < i128::MIN {
        Err(WorldError::ArithmeticOverflow("relief debt limit"))
    } else {
        let d = output * 2 - w.countries[country@].indicators.public_debt@;
        let h = if d > 0 {
            d
        } else {
            0
        };
        if h > i64::MAX {
            Err(WorldError::ArithmeticOverflow("relief debt headroom"))
        } else {
            Ok(h as i64)
        }
    }
}

/// What issuing emergency debt of `amount` answers: an error, or the new public debt
/// and treasury of the country.
pub open spec fn relief_debt_result(
    w: WorldView,
    actor: ActorId,
    country: CountryId,
    amount: Money,
) -> Result<(i64, i64), WorldError> {
    if amount@ <= 0 {
        Err(WorldError::InvalidEmergencyRelief("public borrowing amount must be positive"))
    } else if !is_office_holder(w, actor, country) {
        Err(WorldError::UnauthorizedGovernmentAction { actor, country })
    } else if policy_of(w, country).strategy != EmergencyReliefStrategy::BorrowWithinDebtLimit {
        Err(
            WorldError::InvalidEmergencyRelief(
                "current emergency policy does not authorize public borrowing",
            ),
        )
    } else {
        match debt_headroom(w, country) {
            Err(e) => Err(e),
            Ok(h) => {
                let ind = w.countries[country@].indicators;
                if amount@ > h {
                    Err(WorldError::InvalidEmergencyRelief("public emergency debt limit exceeded"))
                } else if ind.public_debt@ + amount@ > i64::MAX {
                    Err(WorldError::ArithmeticOverflow("emergency public debt"))
                } else if ind.treasury@ + amount@ > i64::MAX {
                    Err(WorldError::ArithmeticOverflow("borrowed treasury cash"))
                } else {
                    Ok(
                        (
                            (ind.public_debt@ + amount@) as i64,
                            (ind.treasury@ + amount@) as i64,
                        ),
                    )
                }
            },
        }
    }
}

/// A country's emergency debt headroom fills the gap to twice its output and no more:
/// it is never negative, a positive headroom brings the debt exactly to twice the
/// output, and there is none only where the debt already reaches it.
pub proof fn lemma_debt_headroom_fills_the_limit(w: WorldView, country: CountryId)
    requires
        debt_headroom(w, country) is Ok,
    ensures
        ({
            let h = debt_headroom(w, country)->Ok_0 as int;
            let debt = w.countries[country@].indicators.public_debt@ as int;
            let limit = 2 * country_output(w, country);
            &&& w.countries.contains_key(country@)
            &&& h >= 0
            &&& h > 0 ==> debt + h == limit
            &&& h == 0 ==> debt >= limit
        }),
{
}

/// Issuing emergency debt adds the amount to the country's debt and treasury, and never
/// takes the debt past twice the country's output.
pub proof fn lemma_relief_debt_within_limit(w: WorldView, actor: ActorId, country: CountryId, amount: Money)
    requires
        relief_debt_result(w, actor, country, amount) is Ok,
    ensures
        ({
            let (debt, treasury) = relief_debt_result(w, actor, country, amount)->Ok_0;
            let ind = w.countries[country@].indicators;
            &&& debt == ind.public_debt@ + amount@
            &&& treasury == ind.treasury@ + amount@
            &&& debt <= 2 * country_output(w, country)
        }),
{
    lemma_debt_headroom_fills_the_limit(w, country);
}

impl World {
    /// Whether `actor` holds a political office of `country`: the authority for
    /// emergency and service-allocation decisions.
    pub fn can_authorize_emergency_relief(&self, actor: ActorId, country: CountryId) -> (r: bool)
        ensures
            r == is_office_holder(self@, actor, country),
    {
        let keys = keys_in_order(&self.power_nodes);
        let mut i: usize = 0;
        while i < keys.len()
            invariant
                keys@ == key_order(self.power_nodes@),
                crate::ordered::is_key_order(self.power_nodes@, keys@),
                forall|k: int| 0 <= k < keys@.len() ==> self.power_nodes@.contains_key(#[trigger] keys@[k]),
                i <= keys.len(),
                forall|k: int|
                    0 <= k < i ==> !holds_office_in(#[trigger] self.power_nodes@[keys@[k]], actor, country),
            decreases keys.len() - i,
        {
            let node = self.power_nodes.get(&keys[i]).unwrap();
            if node.country == country && node.kind == PowerNodeKind::PoliticalOffice
                && node.holder == Some(actor) {
                assert(holds_office_in(self@.power_nodes[keys@[i as int]], actor, country));
                return true;
            }
            i = i + 1;
        }
        proof {
            assert forall|id: u32| #[trigger] self@.power_nodes.contains_key(id) implies !holds_office_in(
                self@.power_nodes[id],
                actor,
                country,
            ) by {
                assert(keys@.to_set().contains(id));
                let k = choose|k: int| 0 <= k < keys@.len() && keys@[k] == id;
            }
        }
        false
    }

    /// The lowest-id actor holding a political office of `country`, if any.
    pub fn emergency_relief_actor(&self, country: CountryId) -> (r: Option<ActorId>)
        ensures
            r is None <==> !exists|a: ActorId| is_office_holder(self@, a, country),
            r matches Some(a) ==> is_office_holder(self@, a, country) && forall|b: ActorId|
                is_office_holder(self@, b, country) ==> a@ <= b@,
    {
        let keys = keys_in_order(&self.power_nodes);
        let mut best: Option<ActorId> = None;
        let mut i: usize = 0;
        while i < keys.len()
            invariant
                keys@ == key_order(self.power_nodes@),
                crate::ordered::is_key_order(self.power_nodes@, keys@),
                forall|k: int| 0 <= k < keys@.len() ==> self.power_nodes@.contains_key(#[trigger] keys@[k]),
                i <= keys.len(),
                best is None ==> forall|k: int, a: ActorId|
                    0 <= k < i ==> !#[trigger] holds_office_in(self.power_nodes@[keys@[k]], a, country),
                best matches Some(a) ==> is_office_holder(self@, a, country) && forall|k: int, b: ActorId|
                    0 <= k < i && #[trigger] holds_office_in(self.power_nodes@[keys@[k]], b, country) ==> a@ <= b@,
            decreases keys.len() - i,
        {
            let node = self.power_nodes.get(&keys[i]).unwrap();
            if node.country == country && node.kind == PowerNodeKind::PoliticalOffice {
                if let Some(holder) = node.holder {
                    let better = match best {
                        None => true,
                        Some(current) => holder.get() < current.get(),
                    };
                    if better {
                        best = Some(holder);
                    }
                    assert(holds_office_in(self@.power_nodes[keys@[i as int]], holder, country));
                }
            }
            i = i + 1;
        }
        proof {
            assert forall|id: u32, b: ActorId| self@.power_nodes.contains_key(id)
                && #[trigger] holds_office_in(self@.power_nodes[id], b, country) implies (best matches Some(a)
                && a@ <= b@) by {
                assert(keys@.to_set().contains(id));
                let k = choose|k: int| 0 <= k < keys@.len() && keys@[k] == id;
                assert(holds_office_in(self@.power_nodes[keys@[k]], b, country));
            }
        }
        best
    }

    /// Sets the emergency-response strategy under a current political-office holder's
    /// authority; rejects an unknown country or an unauthorized actor and then changes nothing.
    pub fn set_government_emergency_policy(
        &mut self,
        actor: ActorId,
        country: CountryId,
        policy: GovernmentEmergencyPolicy,
    ) -> (r: Result<(), WorldError>)
        ensures
            !old(self)@.countries.contains_key(country@) ==> r == Err::<(), WorldError>(
                WorldError::UnknownCountry(country),
            ) && final(self)@ == old(self)@,
            old(self)@.countries.contains_key(country@) && !is_office_holder(old(self)@, actor, country)
                ==> r == Err::<(), WorldError>(
                WorldError::UnauthorizedGovernmentAction { actor, country },
            ) && final(self)@ == old(self)@,
            old(self)@.countries.contains_key(country@) && is_office_holder(old(self)@, actor, country)
                ==> r is Ok && final(self)@ == (WorldView {
                government_emergency_policies: old(self)@.government_emergency_policies.insert(
                    country@,
                    policy,
                ),
                events: old(self)@.events.push(
                    EventEnvelope {
                        date: old(self)@.date,
                        event: DomainEvent::GovernmentEmergencyPolicySet {
                            actor,
                            country,
                            strategy: policy.strategy,
                        },
                    },
                ),
                ..old(self)@
            }),
    {
        if !self.countries.contains_key(&country.get()) {
            return Err(WorldError::UnknownCountry(country));
        }
        if !self.can_authorize_emergency_relief(actor, country) {
            return Err(WorldError::UnauthorizedGovernmentAction { actor, country });
        }
        self.government_emergency_policies.insert(country.get(), policy);
        self.events.append(
            self.date,
            DomainEvent::GovernmentEmergencyPolicySet { actor, country, strategy: policy.strategy },
        );
        Ok(())
    }

    pub fn government_emergency_policies(&self) -> (r: &BTreeMap<u32, GovernmentEmergencyPolicy>)
        ensures
            r@ == self@.government_emergency_policies,
    {
        &self.government_emergency_policies
    }

    /// The remaining emergency borrowing capacity of a country (see `debt_headroom`).
    pub fn emergency_debt_headroom(&self, country: CountryId) -> (r: Result<i64, WorldError>)
        ensures
            r == debt_headroom(self@, country),
    {
        let keys = keys_in_order(&self.regions);
        let mut output: i128 = 0;
        let mut i: usize = 0;
        while i < keys.len()
            invariant
                keys@ == key_order(self.regions@),
                forall|k: int| 0 <= k < keys@.len() ==> self.regions@.contains_key(#[trigger] keys@[k]),
                i <= keys.len(),
                keys.len() <= usize::MAX,
                output as int == output_of(self@, country, keys@.take(i as int)),
                -(i as int) * 0x8000_0000_0000_0000 <= output <= (i as int) * 0x8000_0000_0000_0000,
            decreases keys.len() - i,
        {
            let region = self.regions.get(&keys[i]).unwrap();
            proof {
                assert(keys@.take(i as int + 1).drop_last() =~= keys@.take(i as int));
                assert((i as int + 1) * 0x8000_0000_0000_0000 == (i as int) * 0x8000_0000_0000_0000
                    + 0x8000_0000_0000_0000) by (nonlinear_arith);
                assert((i as int) * 0x8000_0000_0000_0000 <= 0xffff_ffff_ffff_ffff * 0x8000_0000_0000_0000)
                    by (nonlinear_arith)
                    requires
                        i < usize::MAX,
                        usize::MAX <= 0xffff_ffff_ffff_ffff,
                ;
            }
            if region.country == country {
                output = output + region.annual_output.minor_units() as i128;
            }
            i = i + 1;
        }
        proof {
            assert(keys@.take(keys@.len() as int) =~= keys@);
        }
        if !self.countries.contains_key(&country.get()) {
            return Err(WorldError::UnknownCountry(country));
        }
        let limit: i128 = match output.checked_mul(2) {
            Some(v) => v,
            None => {
                return Err(WorldError::ArithmeticOverflow("relief debt limit"));
            },
        };
        let debt = self.countries.get(&country.get()).unwrap().indicators.public_debt.minor_units() as i128;
        let d: i128 = match limit.checked_sub(debt) {
            Some(v) => v,
            None => if debt < 0 {
                i128::MAX
            } else {
                i128::MIN
            },
        };
        let h: i128 = if d > 0 {
            d
        } else {
            0
        };
        if h > i64::MAX as i128 {
            return Err(WorldError::ArithmeticOverflow("relief debt headroom"));
        }
        Ok(h as i64)
    }

    /// Issues bounded public debt and credits the proceeds to the treasury for emergency
    /// relief (see `relief_debt_result`); on any error nothing changes.
    pub fn issue_emergency_relief_debt(
        &mut self,
        actor: ActorId,
        country: CountryId,
        amount: Money,
    ) -> (r: Result<(), WorldError>)
        ensures
            match relief_debt_result(old(self)@, actor, country, amount) {
                Err(e) => r == Err::<(), WorldError>(e) && final(self)@ == old(self)@,
                Ok((debt, treasury)) => r is Ok && final(self)@ == (WorldView {
                    countries: old(self)@.countries.insert(
                        country@,
                        Country {
                            indicators: CountryIndicators {
                                public_debt: Money::spec_from(debt),
                                treasury: Money::spec_from(treasury),
                                ..old(self)@.countries[country@].indicators
                            },
                            ..old(self)@.countries[country@]
                        },
                    ),
                    events: old(self)@.events.push(
                        EventEnvelope {
                            date: old(self)@.date,
                            event: DomainEvent::EmergencyReliefDebtIssued { actor, country, amount },
                        },
                    ),
                    ..old(self)@
                }),
            },
    {
        if amount.minor_units() <= 0 {
            return Err(WorldError::InvalidEmergencyRelief("public borrowing amount must be positive"));
        }
        if !self.can_authorize_emergency_relief(actor, country) {
            return Err(WorldError::UnauthorizedGovernmentAction { actor, country });
        }
        let policy = match self.government_emergency_policies.get(&country.get()) {
            Some(p) => *p,
            None => GovernmentEmergencyPolicy::default(),
        };
        if policy.strategy != EmergencyReliefStrategy::BorrowWithinDebtLimit {
            return Err(
                WorldError::InvalidEmergencyRelief(
                    "current emergency policy does not authorize public borrowing",
                ),
            );
        }
        let headroom = self.emergency_debt_headroom(country)?;
        if amount.minor_units() > headroom {
            return Err(WorldError::InvalidEmergencyRelief("public emergency debt limit exceeded"));
        }
        let current = self.countries.get(&country.get()).unwrap();
        let indicators = current.indicators;
        let debt = match indicators.public_debt.minor_units().checked_add(amount.minor_units()) {
            Some(v) => v,
            None => {
                return Err(WorldError::ArithmeticOverflow("emergency public debt"));
            },
        };
        let treasury = match indicators.treasury.minor_units().checked_add(amount.minor_units()) {
            Some(v) => v,
            None => {
                return Err(WorldError::ArithmeticOverflow("borrowed treasury cash"));
            },
        };
        let updated = Country {
            id: current.id,
            name: current.name.clone(),
            indicators: CountryIndicators {
                public_debt: Money::from_minor_units(debt),
                treasury: Money::from_minor_units(treasury),
                ..indicators
            },
        };
        self.countries.insert(country.get(), updated);
        self.events.append(self.date, DomainEvent::EmergencyReliefDebtIssued { actor, country, amount });
        Ok(())
    }
}

} // verus!
