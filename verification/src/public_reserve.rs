use vstd::prelude::*;
use std::collections::BTreeMap;

use crate::event::{DomainEvent, EventEnvelope};
use crate::ids::{ActorId, CohortId, CountryId, FirmId, GoodId, RegionId};
use crate::market::fits_i64;
use crate::procurement::{ledger_of, same_identity, stock_taken, with_cash};
use crate::production::held;
use crate::simulation::regions_have_countries;
use crate::value::{BasisPoints, Money, QuantityMilli};
use crate::world::{is_office_holder, CountryIndicators, World, WorldError, WorldView};

verus! {

broadcast use Money::lemma_spec_from_view, Money::lemma_from_own_view, QuantityMilli::lemma_spec_from_view,
    QuantityMilli::lemma_from_own_view;

/// A government purchase of a good into its strategic reserve.
#[derive(Clone, Copy, Debug, PartialEq, Eq, Structural)]
pub struct GovernmentReserveProcurement {
    pub actor: ActorId,
    pub country: CountryId,
    pub region: RegionId,
    pub seller: FirmId,
    pub good: GoodId,
    pub quantity: QuantityMilli,
    pub cost: Money,
}

/// A release of reserve stock to a household cohort.
#[derive(Clone, Copy, Debug, PartialEq, Eq, Structural)]
pub struct GovernmentReserveDistribution {
    pub country: CountryId,
    pub region: RegionId,
    pub cohort: CohortId,
    pub good: GoodId,
    pub quantity: QuantityMilli,
}

/// One month of upkeep of a reserve stock: its cost and its spoilage.
#[derive(Clone, Copy, Debug, PartialEq, Eq, Structural)]
pub struct GovernmentReserveMaintenance {
    pub country: CountryId,
    pub region: RegionId,
    pub good: GoodId,
    pub opening_stock: QuantityMilli,
    pub reference_value: Money,
    pub assessed_cost: Money,
    pub paid_cost: Money,
    pub baseline_spoilage: QuantityMilli,
    pub neglect_spoilage: QuantityMilli,
    pub closing_stock: QuantityMilli,
}

/// Why a reserve priority was revised.
#[derive(Clone, Copy, Debug, PartialEq, Eq, Structural)]
pub enum ReservePriorityRevisionReason {
    Unrevised,
    UncoveredGap,
    ImportReliance,
    IdleSpoilage,
}

/// The evidence and outcome of one review of a reserve policy.
#[derive(Clone, Copy, Debug, PartialEq, Eq, Structural)]
pub struct GovernmentReservePolicyReview {
    pub country: CountryId,
    pub observed_shortage: QuantityMilli,
    pub opening_stock: QuantityMilli,
    pub remaining_gap: QuantityMilli,
    pub baseline_spoilage: QuantityMilli,
    pub neglect_spoilage: QuantityMilli,
    pub preparedness_months: u8,
    pub budget_gap_months: u8,
    pub upkeep_stress_months: u8,
    pub waste_months: u8,
    pub previous_coverage_months: u8,
    pub new_coverage_months: u8,
    pub previous_monthly_budget: BasisPoints,
    pub new_monthly_budget: BasisPoints,
}

/// The reserve stock held for a region and good, zero where none is held.
pub open spec fn reserve_stock(w: WorldView, region: u32, good: u32) -> int {
    if w.government_reserves.contains_key((region, good)) {
        w.government_reserves[(region, good)]@ as int
    } else {
        0
    }
}

/// Why a reserve purchase is refused, checked in this order: a nil quantity or price, an
/// unknown good, seller or seller's region, an actor without office in the seller's
/// country, a cost that overflows or settles at nothing, a treasury short of the cost, a
/// seller short of stock, or a seller's cash or a reserve stock that would overflow.
pub open spec fn reserve_procurement_error(
    w: WorldView,
    actor: ActorId,
    seller: FirmId,
    good: GoodId,
    quantity: QuantityMilli,
    unit_price: Money,
) -> Option<WorldError> {
    let cost = quantity@ * unit_price@ / 1000;
    if quantity@ == 0 || unit_price@ <= 0 {
        Some(WorldError::InvalidEmergencyRelief("reserve procurement requires positive quantity and price"))
    } else if !w.goods.contains_key(good@) {
        Some(WorldError::UnknownGood(good))
    } else if !w.firms.contains_key(seller@) {
        Some(WorldError::UnknownFirm(seller))
    } else {
        let firm = w.firms[seller@];
        let region = firm.spec_region();
        if !w.regions.contains_key(region@) {
            Some(WorldError::UnknownRegion(region))
        } else {
            let country = w.regions[region@].country;
            if !is_office_holder(w, actor, country) {
                Some(WorldError::UnauthorizedGovernmentAction { actor, country })
            } else if !fits_i64(cost) {
                Some(WorldError::ArithmeticOverflow("government reserve cost"))
            } else if cost <= 0 {
                Some(WorldError::InvalidEmergencyRelief("reserve procurement cost must settle above zero"))
            } else if w.countries[country@].indicators.treasury@ < cost {
                Some(WorldError::InsufficientTreasury(country))
            } else if held(firm.spec_inventories(), good@) < quantity@ {
                Some(WorldError::InsufficientFirmInventory { firm: seller, good })
            } else if !fits_i64(firm.spec_cash() + cost) {
                Some(WorldError::ArithmeticOverflow("firm cash"))
            } else if reserve_stock(w, region@, good@) + quantity@ > u64::MAX {
                Some(WorldError::ArithmeticOverflow("government reserve stock"))
            } else {
                None
            }
        }
    }
}

/// The world after an accepted reserve purchase: the seller delivers from stock and is
/// paid, the treasury pays, the reserve grows, and the purchase is recorded.
pub open spec fn reserve_procured(
    before: WorldView,
    after: WorldView,
    actor: ActorId,
    seller: FirmId,
    good: GoodId,
    quantity: QuantityMilli,
    unit_price: Money,
) -> bool {
    let cost = quantity@ * unit_price@ / 1000;
    let firm = before.firms[seller@];
    let region = firm.spec_region();
    let country = before.regions[region@].country;
    let c = before.countries[country@];
    &&& after == (WorldView {
        firms: after.firms,
        countries: before.countries.insert(
            country@,
            crate::world::Country {
                indicators: CountryIndicators {
                    treasury: Money::spec_from((c.indicators.treasury@ - cost) as i64),
                    ..c.indicators
                },
                ..c
            },
        ),
        government_reserves: before.government_reserves.insert(
            (region@, good@),
            QuantityMilli::spec_from((reserve_stock(before, region@, good@) + quantity@) as u64),
        ),
        events: before.events.push(
            EventEnvelope {
                date: before.date,
                event: DomainEvent::GovernmentReserveProcured {
                    actor,
                    country,
                    region,
                    seller,
                    good,
                    quantity,
                    cost: Money::spec_from(cost as i64),
                },
            },
        ),
        ..before
    })
    &&& after.firms.dom() == before.firms.dom()
    &&& forall|id: u32| #[trigger] before.firms.contains_key(id) && id != seller@ ==> after.firms[id] == before.firms[id]
    &&& same_identity(after.firms[seller@], firm)
    &&& ledger_of(after.firms[seller@]) == with_cash(
        stock_taken(ledger_of(firm), good@, quantity@ as int),
        firm.spec_cash() + cost,
    )
}

impl World {
    /// Buys physical inventory from a domestic firm into its region's public reserve, at
    /// the authority of an office holder of the firm's country. Every check comes before
    /// any change, so a refusal leaves the world unchanged.
    pub fn procure_government_reserve(
        &mut self,
        actor: ActorId,
        seller: FirmId,
        good: GoodId,
        quantity: QuantityMilli,
        unit_price: Money,
    ) -> (r: Result<GovernmentReserveProcurement, WorldError>)
        requires
            regions_have_countries(old(self)@),
        ensures
            reserve_procurement_error(old(self)@, actor, seller, good, quantity, unit_price) matches Some(e) ==> r
                == Err::<GovernmentReserveProcurement, WorldError>(e) && final(self)@ == old(self)@,
            reserve_procurement_error(old(self)@, actor, seller, good, quantity, unit_price) is None ==> ({
                let cost = quantity@ * unit_price@ / 1000;
                let region = old(self)@.firms[seller@].spec_region();
                &&& r == Ok::<GovernmentReserveProcurement, WorldError>(
                    GovernmentReserveProcurement {
                        actor,
                        country: old(self)@.regions[region@].country,
                        region,
                        seller,
                        good,
                        quantity,
                        cost: Money::spec_from(cost as i64),
                    },
                )
                &&& reserve_procured(old(self)@, final(self)@, actor, seller, good, quantity, unit_price)
            }),
    {
        if quantity.get() == 0 || unit_price.minor_units() <= 0 {
            return Err(WorldError::InvalidEmergencyRelief("reserve procurement requires positive quantity and price"));
        }
        if !self.goods.contains_key(&good.get()) {
            return Err(WorldError::UnknownGood(good));
        }
        let firm = match self.firms.get(&seller.get()) {
            Some(f) => f,
            None => {
                return Err(WorldError::UnknownFirm(seller));
            },
        };
        let region = firm.region();
        let country = match self.regions.get(&region.get()) {
            Some(r) => r.country,
            None => {
                return Err(WorldError::UnknownRegion(region));
            },
        };
        if !self.can_authorize_emergency_relief(actor, country) {
            return Err(WorldError::UnauthorizedGovernmentAction { actor, country });
        }
        proof {
            assert(quantity@ * unit_price@ <= 0xffff_ffff_ffff_ffff * 0x7fff_ffff_ffff_ffff) by (nonlinear_arith)
                requires
                    0 <= quantity@ <= 0xffff_ffff_ffff_ffff,
                    0 < unit_price@ <= 0x7fff_ffff_ffff_ffff,
            ;
            assert(0 <= quantity@ * unit_price@) by (nonlinear_arith)
                requires
                    0 <= quantity@,
                    0 < unit_price@,
            ;
        }
        let raw_cost: i128 = (quantity.get() as i128) * (unit_price.minor_units() as i128) / 1000;
        if raw_cost > i64::MAX as i128 {
            return Err(WorldError::ArithmeticOverflow("government reserve cost"));
        }
        let cost_minor = raw_cost as i64;
        if cost_minor <= 0 {
            return Err(WorldError::InvalidEmergencyRelief("reserve procurement cost must settle above zero"));
        }
        let treasury = self.countries.get(&country.get()).unwrap().indicators.treasury;
        if treasury.minor_units() < cost_minor {
            return Err(WorldError::InsufficientTreasury(country));
        }
        if firm.inventory_of(good).get() < quantity.get() {
            return Err(WorldError::InsufficientFirmInventory { firm: seller, good });
        }
        let paid = match firm.cash().minor_units().checked_add(cost_minor) {
            Some(v) => v,
            None => {
                return Err(WorldError::ArithmeticOverflow("firm cash"));
            },
        };
        let current: u64 = match self.government_reserves.get(&(region.get(), good.get())) {
            Some(q) => q.get(),
            None => 0,
        };
        let stocked = match current.checked_add(quantity.get()) {
            Some(v) => v,
            None => {
                return Err(WorldError::ArithmeticOverflow("government reserve stock"));
            },
        };
        let ghost w0 = self@;
        let mut seller_firm = self.firms.remove(&seller.get()).unwrap();
        let debited = seller_firm.debit_inventory(good, quantity);
        seller_firm.set_cash(Money::from_minor_units(paid));
        self.firms.insert(seller.get(), seller_firm);
        let mut c = self.countries.remove(&country.get()).unwrap();
        c.indicators.treasury = Money::from_minor_units(treasury.minor_units() - cost_minor);
        self.countries.insert(country.get(), c);
        self.government_reserves.insert((region.get(), good.get()), QuantityMilli::new(stocked));
        let cost = Money::from_minor_units(cost_minor);
        self.events.append(
            self.date,
            DomainEvent::GovernmentReserveProcured { actor, country, region, seller, good, quantity, cost },
        );
        proof {
            assert(raw_cost == quantity@ * unit_price@ / 1000);
            assert(cost == Money::spec_from((quantity@ * unit_price@ / 1000) as i64));
            assert(debited is Ok);
            assert(self@.firms.dom() =~= w0.firms.dom());
            assert(ledger_of(self@.firms[seller@]) =~= with_cash(
                stock_taken(ledger_of(w0.firms[seller@]), good@, quantity@ as int),
                w0.firms[seller@].spec_cash() + cost_minor,
            ));
            assert(self@ =~= (WorldView {
                firms: self@.firms,
                countries: self@.countries,
                government_reserves: self@.government_reserves,
                events: self@.events,
                ..w0
            }));
        }
        proof {
            let c0 = w0.countries[country@];
            assert(self@.countries =~= w0.countries.insert(
                country@,
                crate::world::Country {
                    indicators: CountryIndicators {
                        treasury: Money::spec_from((c0.indicators.treasury@ - cost_minor) as i64),
                        ..c0.indicators
                    },
                    ..c0
                },
            ));
            assert(self@.government_reserves =~= w0.government_reserves.insert(
                (region@, good@),
                QuantityMilli::spec_from((reserve_stock(w0, region@, good@) + quantity@) as u64),
            ));
            assert(forall|id: u32| #[trigger] w0.firms.contains_key(id) && id != seller@ ==> self@.firms[id] == w0.firms[id]);
            assert(same_identity(self@.firms[seller@], w0.firms[seller@]));
        }
        Ok(GovernmentReserveProcurement { actor, country, region, seller, good, quantity, cost })
    }
}

/// Why setting a reserve priority is refused, checked in this order: an unknown region,
/// a region of another country, an unknown good, an actor without office in the country.
pub open spec fn reserve_priority_error(
    w: WorldView,
    actor: ActorId,
    country: CountryId,
    region: RegionId,
    good: GoodId,
) -> Option<WorldError> {
    if !w.regions.contains_key(region@) {
        Some(WorldError::UnknownRegion(region))
    } else if w.regions[region@].country != country {
        Some(WorldError::InvalidEmergencyRelief("reserve priority region must belong to the selected country"))
    } else if !w.goods.contains_key(good@) {
        Some(WorldError::UnknownGood(good))
    } else if !is_office_holder(w, actor, country) {
        Some(WorldError::UnauthorizedGovernmentAction { actor, country })
    } else {
        None
    }
}

impl World {
    /// Sets how much of its reserve purchasing a country gives to a good in one of its
    /// regions, at the authority of one of its office holders; a refusal changes nothing.
    pub fn set_government_reserve_priority(
        &mut self,
        actor: ActorId,
        country: CountryId,
        region: RegionId,
        good: GoodId,
        priority: BasisPoints,
    ) -> (r: Result<(), WorldError>)
        ensures
            reserve_priority_error(old(self)@, actor, country, region, good) matches Some(e) ==> r == Err::<
                (),
                WorldError,
            >(e) && final(self)@ == old(self)@,
            reserve_priority_error(old(self)@, actor, country, region, good) is None ==> r is Ok && final(self)@ == (
            WorldView {
                government_reserve_priorities: old(self)@.government_reserve_priorities.insert(
                    (country@, region@, good@),
                    priority,
                ),
                events: old(self)@.events.push(
                    EventEnvelope {
                        date: old(self)@.date,
                        event: DomainEvent::GovernmentReservePrioritySet { actor, country, region, good, priority },
                    },
                ),
                ..old(self)@
            }),
    {
        let actual = match self.regions.get(&region.get()) {
            Some(r) => r.country,
            None => {
                return Err(WorldError::UnknownRegion(region));
            },
        };
        if actual != country {
            return Err(WorldError::InvalidEmergencyRelief("reserve priority region must belong to the selected country"));
        }
        if !self.goods.contains_key(&good.get()) {
            return Err(WorldError::UnknownGood(good));
        }
        if !self.can_authorize_emergency_relief(actor, country) {
            return Err(WorldError::UnauthorizedGovernmentAction { actor, country });
        }
        self.government_reserve_priorities.insert((country.get(), region.get(), good.get()), priority);
        self.events.append(self.date, DomainEvent::GovernmentReservePrioritySet { actor, country, region, good, priority });
        Ok(())
    }

    /// The reserve priorities by (country, region, good).
    pub fn government_reserve_priorities(&self) -> (r: &BTreeMap<(u32, u32, u32), BasisPoints>)
        ensures
            r@ == self@.government_reserve_priorities,
    {
        &self.government_reserve_priorities
    }

    /// The reserve stocks by (region, good).
    pub fn government_reserves(&self) -> (r: &BTreeMap<(u32, u32), QuantityMilli>)
        ensures
            r@ == self@.government_reserves,
    {
        &self.government_reserves
    }
}

} // verus!
