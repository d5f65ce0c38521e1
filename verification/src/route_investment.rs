use vstd::prelude::*;
use std::collections::{BTreeMap, BTreeSet};

use crate::event::{DomainEvent, EventEnvelope};
use crate::ids::{FirmId, RouteId};
use crate::ordered::{is_key_order, key_order, keys_in_order};
use crate::time::SimDate;
use crate::value::{Money, QuantityMilli};
use crate::world::{World, WorldError, WorldView};

verus! {

broadcast use {
    vstd::std_specs::btree::group_btree_axioms,
    Money::lemma_spec_from_view,
    Money::lemma_from_own_view,
    QuantityMilli::lemma_spec_from_view,
    QuantityMilli::lemma_from_own_view,
};

/// Consecutive constrained, revenue-earning months before a route is widened.
pub const PRESSURE_MONTHS_REQUIRED: u8 = 3;

/// A widening adds a tenth of the route's capacity, rounded up.
pub const EXPANSION_SHARE_DIVISOR: u64 = 10;

/// Months of the added capacity's freight revenue that a widening costs.
pub const PAYBACK_MONTHS: i128 = 12;

/// A carrier's funded expansion of a route's capacity.
#[derive(Clone, Copy, Debug, PartialEq, Eq, Structural)]
pub struct RouteCapacityExpansion {
    pub route: RouteId,
    pub carrier: FirmId,
    pub previous_capacity: QuantityMilli,
    pub added_capacity: QuantityMilli,
    pub cost: Money,
}

/// The freight one event paid on `route`: market and procurement freight count.
pub open spec fn freight_paid_on(event: DomainEvent, route: u32) -> int {
    match event {
        DomainEvent::MarketFreightPaid { route: paid, amount, .. } => if paid@ == route {
            amount@ as int
        } else {
            0
        },
        DomainEvent::FirmProcurementFreightPaid { route: paid, amount, .. } => if paid@ == route {
            amount@ as int
        } else {
            0
        },
        _ => 0,
    }
}

/// The freight `route` earned in the events at the end of the log that were recorded
/// on `date`.
pub open spec fn trailing_freight_revenue(events: Seq<EventEnvelope>, date: SimDate, route: u32) -> int
    decreases events.len(),
{
    if events.len() == 0 || events.last().date != date {
        0
    } else {
        trailing_freight_revenue(events.drop_last(), date, route) + freight_paid_on(
            events.last().event,
            route,
        )
    }
}

/// The capacity a widening adds: a tenth of the current capacity, rounded up, at least 1.
pub open spec fn expansion_added(capacity: int) -> int {
    let share = (capacity + 9) / 10;
    if share > 1 {
        share
    } else {
        1
    }
}

/// What a widening costs: twelve months of the freight the added capacity would earn,
/// rounded up to a whole minor unit and at least one unit a month.
pub open spec fn expansion_cost(cost_per_unit: int, added: int) -> int {
    let monthly = (cost_per_unit * added + 999) / 1000;
    let monthly = if monthly > 1 {
        monthly
    } else {
        1
    };
    monthly * 12
}

/// Widens route `id` at its carrier's expense: the carrier pays the cost when its cash
/// covers it, then the route gains the capacity and the expansion is recorded. Returns
/// the world after the attempt and the expansion, `None` when the carrier cannot pay,
/// or the error; a capacity that would overflow is refused before anything is paid.
pub open spec fn fund_route_expansion(w: WorldView, id: u32) -> (
    WorldView,
    Result<Option<RouteCapacityExpansion>, WorldError>,
) {
    let route = w.logistics_routes[id];
    match route.spec_carrier() {
        None => (w, Err(WorldError::InvalidLogistics("route expansion requires a carrier"))),
        Some(carrier) => {
            let previous = route.spec_capacity() as int;
            let added = expansion_added(previous);
            let cost = expansion_cost(route.spec_cost_per_unit() as int, added);
            if cost > i64::MAX {
                (w, Err(WorldError::ArithmeticOverflow("route expansion cost")))
            } else if !w.firms.contains_key(carrier@) {
                (w, Err(WorldError::UnknownFirm(carrier)))
            } else if w.firms[carrier@].spec_cash() < cost {
                (w, Ok(None))
            } else if previous + added > u64::MAX {
                (w, Err(WorldError::ArithmeticOverflow("route capacity")))
            } else {
                let firm = w.firms[carrier@];
                let paid = WorldView {
                    firms: w.firms.insert(
                        carrier@,
                        firm.spec_with_cash(Money::spec_from((firm.spec_cash() - cost) as i64)),
                    ),
                    ..w
                };
                {
                    let expansion = RouteCapacityExpansion {
                        route: RouteId(id),
                        carrier,
                        previous_capacity: QuantityMilli::spec_from(previous as u64),
                        added_capacity: QuantityMilli::spec_from(added as u64),
                        cost: Money::spec_from(cost as i64),
                    };
                    (
                        WorldView {
                            logistics_routes: w.logistics_routes.insert(
                                id,
                                route.spec_widened(added as u64),
                            ),
                            events: w.events.push(
                                EventEnvelope {
                                    date: w.date,
                                    event: DomainEvent::RouteCapacityExpanded {
                                        route: expansion.route,
                                        carrier,
                                        previous_capacity: expansion.previous_capacity,
                                        added_capacity: expansion.added_capacity,
                                        cost: expansion.cost,
                                    },
                                },
                            ),
                            ..paid
                        },
                        Ok(Some(expansion)),
                    )
                }
            }
        },
    }
}

/// One route's monthly review: a route that was not constrained, or earned no freight
/// today, loses its pressure; otherwise its pressure grows by one month up to three, and
/// at three the carrier is asked to fund a widening, which clears the pressure.
pub open spec fn pressure_step(w: WorldView, constrained: Set<u32>, id: u32) -> (
    WorldView,
    Result<Option<RouteCapacityExpansion>, WorldError>,
) {
    if !constrained.contains(id) || trailing_freight_revenue(w.events, w.date, id) <= 0 {
        (
            WorldView { route_capacity_pressure: w.route_capacity_pressure.remove(id), ..w },
            Ok(None),
        )
    } else {
        let before = if w.route_capacity_pressure.contains_key(id) {
            w.route_capacity_pressure[id] as int
        } else {
            0
        };
        let months = if before + 1 < PRESSURE_MONTHS_REQUIRED {
            before + 1
        } else {
            PRESSURE_MONTHS_REQUIRED as int
        };
        let pressed = WorldView {
            route_capacity_pressure: w.route_capacity_pressure.insert(id, months as u8),
            ..w
        };
        if months < PRESSURE_MONTHS_REQUIRED {
            (pressed, Ok(None))
        } else {
            let (funded, outcome) = fund_route_expansion(pressed, id);
            match outcome {
                Ok(Some(expansion)) => (
                    WorldView {
                        route_capacity_pressure: funded.route_capacity_pressure.remove(id),
                        ..funded
                    },
                    Ok(Some(expansion)),
                ),
                _ => (funded, outcome),
            }
        }
    }
}

/// The reviews of the routes `ids` in order, stopping at the first error, with the
/// expansions funded along the way.
pub open spec fn pressure_review(w: WorldView, constrained: Set<u32>, ids: Seq<u32>) -> (
    WorldView,
    Result<Seq<RouteCapacityExpansion>, WorldError>,
)
    decreases ids.len(),
{
    if ids.len() == 0 {
        (w, Ok(Seq::empty()))
    } else {
        let (before, done) = pressure_review(w, constrained, ids.drop_last());
        match done {
            Err(e) => (before, Err(e)),
            Ok(expansions) => {
                let (after, step) = pressure_step(before, constrained, ids.last());
                match step {
                    Err(e) => (after, Err(e)),
                    Ok(None) => (after, Ok(expansions)),
                    Ok(Some(expansion)) => (after, Ok(expansions.push(expansion))),
                }
            },
        }
    }
}

/// Once a review has failed, reviewing further routes changes nothing.
pub proof fn lemma_review_stops_at_error(w: WorldView, constrained: Set<u32>, ids: Seq<u32>, k: int)
    requires
        0 <= k <= ids.len(),
        pressure_review(w, constrained, ids.take(k)).1 is Err,
    ensures
        pressure_review(w, constrained, ids) == pressure_review(w, constrained, ids.take(k)),
    decreases ids.len() - k,
{
    if k == ids.len() {
        assert(ids.take(k) =~= ids);
    } else {
        assert(ids.take(k + 1).drop_last() =~= ids.take(k));
        lemma_review_stops_at_error(w, constrained, ids, k + 1);
    }
}

impl World {
    /// The freight `route` earned on the current date, read from the end of the log.
    pub fn current_route_freight_revenue(&self, route: u32) -> (r: i128)
        ensures
            r == trailing_freight_revenue(self@.events, self@.date, route),
    {
        let events = self.events.events();
        let ghost all = events@;
        let mut i: usize = events.len();
        let mut total: i128 = 0;
        proof {
            assert(all.take(all.len() as int) =~= all);
        }
        while i > 0
            invariant
                events@ == all,
                all == self@.events,
                i <= all.len(),
                trailing_freight_revenue(all, self@.date, route) == total
                    + trailing_freight_revenue(all.take(i as int), self@.date, route),
                -((all.len() - i) * 0x8000_0000_0000_0000) <= total <= (all.len() - i)
                    * 0x8000_0000_0000_0000,
            decreases i,
        {
            let envelope = &events[i - 1];
            proof {
                assert(all.take(i as int).drop_last() =~= all.take(i - 1));
                assert(all.take(i as int).last() == all[i - 1]);
            }
            if envelope.date != self.date {
                return total;
            }
            let paid: i128 = match &envelope.event {
                DomainEvent::MarketFreightPaid { route: paid_route, amount, .. } => {
                    if paid_route.get() == route {
                        amount.minor_units() as i128
                    } else {
                        0
                    }
                },
                DomainEvent::FirmProcurementFreightPaid { route: paid_route, amount, .. } => {
                    if paid_route.get() == route {
                        amount.minor_units() as i128
                    } else {
                        0
                    }
                },
                _ => 0,
            };
            total = total + paid;
            i = i - 1;
        }
        proof {
            assert(all.take(0) =~= Seq::<EventEnvelope>::empty());
        }
        total
    }

    /// Asks route `id`'s carrier to fund a widening, following `fund_route_expansion`.
    fn try_fund_route_expansion(&mut self, id: u32) -> (r: Result<
        Option<RouteCapacityExpansion>,
        WorldError,
    >)
        requires
            old(self)@.logistics_routes.contains_key(id),
        ensures
            (final(self)@, r) == fund_route_expansion(old(self)@, id),
    {
        let route = match self.logistics_routes.get(&id) {
            Some(route) => route,
            None => {
                return Err(WorldError::UnknownLogisticsRoute(RouteId::new(id)));
            },
        };
        let carrier = match route.carrier() {
            Some(carrier) => carrier,
            None => {
                return Err(WorldError::InvalidLogistics("route expansion requires a carrier"));
            },
        };
        let previous = route.capacity();
        let cost_per_unit = route.cost_per_unit();
        let capacity = previous.get();
        let share: u64 = capacity / EXPANSION_SHARE_DIVISOR + if capacity % EXPANSION_SHARE_DIVISOR
            != 0 {
            1
        } else {
            0
        };
        let added_raw: u64 = if share > 1 {
            share
        } else {
            1
        };
        proof {
            assert(share == (capacity + 9) / 10) by (nonlinear_arith)
                requires
                    share == capacity / 10 + if capacity % 10 != 0 {
                        1int
                    } else {
                        0int
                    },
            ;
            assert(added_raw == expansion_added(capacity as int));
            assert(0 < cost_per_unit@ * added_raw <= 0x7fff_ffff_ffff_ffff * 0xffff_ffff_ffff_ffff)
                by (nonlinear_arith)
                requires
                    0 < cost_per_unit@ <= 0x7fff_ffff_ffff_ffff,
                    0 < added_raw <= 0xffff_ffff_ffff_ffff,
            ;
        }
        let gross: i128 = cost_per_unit.minor_units() as i128 * added_raw as i128;
        let rounded: i128 = (gross + 999) / 1000;
        let monthly: i128 = if rounded > 1 {
            rounded
        } else {
            1
        };
        let cost: i128 = monthly * PAYBACK_MONTHS;
        if cost > i64::MAX as i128 {
            return Err(WorldError::ArithmeticOverflow("route expansion cost"));
        }
        let cost_money = Money::from_minor_units(cost as i64);
        match self.firms.get(&carrier.get()) {
            None => {
                return Err(WorldError::UnknownFirm(carrier));
            },
            Some(firm) => {
                if firm.cash().minor_units() < cost_money.minor_units() {
                    return Ok(None);
                }
            },
        }
        if previous.get() > u64::MAX - added_raw {
            return Err(WorldError::ArithmeticOverflow("route capacity"));
        }
        let mut firm = self.firms.remove(&carrier.get()).unwrap();
        let remaining = firm.cash().minor_units() - cost_money.minor_units();
        firm.set_cash(Money::from_minor_units(remaining));
        self.firms.insert(carrier.get(), firm);
        let mut widened = self.logistics_routes.remove(&id).unwrap();
        let added = QuantityMilli::new(added_raw);
        let outcome = widened.add_capacity(added);
        self.logistics_routes.insert(id, widened);
        proof {
            assert(outcome is Ok);
        }
        let expansion = RouteCapacityExpansion {
            route: RouteId::new(id),
            carrier,
            previous_capacity: previous,
            added_capacity: added,
            cost: cost_money,
        };
        self.events.append(
            self.date,
            DomainEvent::RouteCapacityExpanded {
                route: expansion.route,
                carrier,
                previous_capacity: previous,
                added_capacity: added,
                cost: cost_money,
            },
        );
        Ok(Some(expansion))
    }

    /// Reviews every route, in id order, against this month's constrained routes and
    /// funds the widenings that three revenue-earning constrained months call for,
    /// following `pressure_review`. An error stops the review; what was done before it
    /// stays done.
    pub fn respond_to_route_capacity_pressure(&mut self, constrained_routes: &BTreeSet<u32>) -> (r:
        Result<Vec<RouteCapacityExpansion>, WorldError>)
        ensures
            ({
                let (after, outcome) = pressure_review(
                    old(self)@,
                    constrained_routes@,
                    key_order(old(self)@.logistics_routes),
                );
                &&& final(self)@ == after
                &&& match outcome {
                    Ok(expansions) => r matches Ok(v) && v@ == expansions,
                    Err(e) => r == Err::<Vec<RouteCapacityExpansion>, WorldError>(e),
                }
            }),
    {
        let ids = keys_in_order(&self.logistics_routes);
        let ghost start = self@;
        let mut expansions: Vec<RouteCapacityExpansion> = Vec::new();
        let mut i: usize = 0;
        while i < ids.len()
            invariant
                start == old(self)@,
                ids@ == key_order(start.logistics_routes),
                is_key_order(start.logistics_routes, ids@),
                i <= ids@.len(),
                self@.logistics_routes.dom() == start.logistics_routes.dom(),
                pressure_review(start, constrained_routes@, ids@.take(i as int)) == (
                    self@,
                    Ok::<Seq<RouteCapacityExpansion>, WorldError>(expansions@),
                ),
            decreases ids.len() - i,
        {
            let id = ids[i];
            let ghost before = self@;
            proof {
                assert(ids@.take(i + 1).drop_last() =~= ids@.take(i as int));
                assert(ids@.take(i + 1).last() == id);
                assert(ids@.to_set().contains(id));
            }
            if !constrained_routes.contains(&id) || self.current_route_freight_revenue(id) <= 0 {
                self.route_capacity_pressure.remove(&id);
            } else {
                let previous: u8 = match self.route_capacity_pressure.get(&id) {
                    Some(months) => *months,
                    None => 0,
                };
                let months: u8 = if previous < 2 {
                    previous + 1
                } else {
                    PRESSURE_MONTHS_REQUIRED
                };
                self.route_capacity_pressure.insert(id, months);
                if months >= PRESSURE_MONTHS_REQUIRED {
                    match self.try_fund_route_expansion(id) {
                        Err(e) => {
                            proof {
                                lemma_review_stops_at_error(
                                    start,
                                    constrained_routes@,
                                    ids@,
                                    i + 1,
                                );
                            }
                            return Err(e);
                        },
                        Ok(None) => {},
                        Ok(Some(expansion)) => {
                            self.route_capacity_pressure.remove(&id);
                            expansions.push(expansion);
                        },
                    }
                }
            }
            proof {
                assert(self@.logistics_routes.dom() =~= start.logistics_routes.dom());
            }
            i = i + 1;
        }
        proof {
            assert(ids@.take(ids@.len() as int) =~= ids@);
        }
        Ok(expansions)
    }

    pub fn route_capacity_pressure(&self) -> (r: &BTreeMap<u32, u8>)
        ensures
            r@ == self@.route_capacity_pressure,
    {
        &self.route_capacity_pressure
    }
}

} // verus!
