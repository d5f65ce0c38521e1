use vstd::prelude::*;
use std::collections::BTreeMap;

use crate::ids::{FirmId, GoodId, RegionId, RouteId, ShipmentId};
use crate::ordered::{is_key_order, key_order, keys_in_order};
use crate::value::{Money, QuantityMilli};
use crate::world::{World, WorldError, WorldView};

verus! {

broadcast use vstd::std_specs::btree::group_btree_axioms;

/// The physical mode of a transport service.
#[derive(Clone, Copy, Debug, PartialEq, Eq, Structural)]
pub enum TransportMode {
    Road,
    Rail,
    Sea,
    Air,
}

/// A directed transport service between two distinct regions.
#[derive(Debug, PartialEq, Eq)]
pub struct LogisticsRoute {
    id: RouteId,
    origin: RegionId,
    destination: RegionId,
    mode: TransportMode,
    monthly_capacity: QuantityMilli,
    cost_per_unit: Money,
    transit_days: u16,
    reliability_bps: u16,
    carrier: Option<FirmId>,
}

impl Clone for LogisticsRoute {
    fn clone(&self) -> (r: Self)
        ensures
            r == *self,
    {
        proof {
            use_type_invariant(self);
        }
        LogisticsRoute { ..*self }
    }
}

impl LogisticsRoute {
    pub closed spec fn spec_id(&self) -> RouteId {
        self.id
    }

    pub closed spec fn spec_origin(&self) -> RegionId {
        self.origin
    }

    pub closed spec fn spec_destination(&self) -> RegionId {
        self.destination
    }

    pub closed spec fn spec_mode(&self) -> TransportMode {
        self.mode
    }

    pub closed spec fn spec_capacity(&self) -> u64 {
        self.monthly_capacity@
    }

    pub closed spec fn spec_cost_per_unit(&self) -> i64 {
        self.cost_per_unit@
    }

    pub closed spec fn spec_transit_days(&self) -> u16 {
        self.transit_days
    }

    pub closed spec fn spec_reliability_bps(&self) -> u16 {
        self.reliability_bps
    }

    pub closed spec fn spec_carrier(&self) -> Option<FirmId> {
        self.carrier
    }

    #[verifier::type_invariant]
    closed spec fn valid(&self) -> bool {
        &&& self.origin != self.destination
        &&& self.monthly_capacity@ > 0
        &&& self.cost_per_unit@ > 0
        &&& self.transit_days > 0
        &&& self.reliability_bps <= 10_000
    }

    /// Creates a directed route, rejecting loops and non-positive capacity, cost or
    /// transit time, and a reliability above 100%.
    pub fn new(
        id: RouteId,
        origin: RegionId,
        destination: RegionId,
        mode: TransportMode,
        monthly_capacity: QuantityMilli,
        cost_per_unit: Money,
        transit_days: u16,
        reliability_bps: u16,
    ) -> (r: Result<Self, WorldError>)
        ensures
            (origin == destination || monthly_capacity@ == 0 || cost_per_unit@ <= 0 || transit_days
                == 0 || reliability_bps > 10_000) ==> r == Err::<Self, WorldError>(
                WorldError::InvalidLogistics("invalid route values"),
            ),
            !(origin == destination || monthly_capacity@ == 0 || cost_per_unit@ <= 0
                || transit_days == 0 || reliability_bps > 10_000) ==> (r matches Ok(route)
                && route.spec_id() == id && route.spec_origin() == origin
                && route.spec_destination() == destination && route.spec_mode() == mode
                && route.spec_capacity() == monthly_capacity@ && route.spec_cost_per_unit()
                == cost_per_unit@ && route.spec_transit_days() == transit_days
                && route.spec_reliability_bps() == reliability_bps && route.spec_carrier()
                is None),
    {
        if origin == destination || monthly_capacity.get() == 0 || cost_per_unit.minor_units() <= 0
            || transit_days == 0 || reliability_bps > 10_000 {
            return Err(WorldError::InvalidLogistics("invalid route values"));
        }
        Ok(LogisticsRoute {
            id,
            origin,
            destination,
            mode,
            monthly_capacity,
            cost_per_unit,
            transit_days,
            reliability_bps,
            carrier: None,
        })
    }

    pub fn id(&self) -> (r: RouteId)
        ensures
            r == self.spec_id(),
    {
        self.id
    }

    pub fn origin(&self) -> (r: RegionId)
        ensures
            r == self.spec_origin(),
            r != self.spec_destination(),
    {
        proof {
            use_type_invariant(self);
        }
        self.origin
    }

    pub fn destination(&self) -> (r: RegionId)
        ensures
            r == self.spec_destination(),
    {
        self.destination
    }

    pub fn capacity(&self) -> (r: QuantityMilli)
        ensures
            r@ == self.spec_capacity(),
            r@ > 0,
    {
        proof {
            use_type_invariant(self);
        }
        self.monthly_capacity
    }

    pub fn cost_per_unit(&self) -> (r: Money)
        ensures
            r@ == self.spec_cost_per_unit(),
            r@ > 0,
    {
        proof {
            use_type_invariant(self);
        }
        self.cost_per_unit
    }

    pub fn transit_days(&self) -> (r: u16)
        ensures
            r == self.spec_transit_days(),
            r > 0,
    {
        proof {
            use_type_invariant(self);
        }
        self.transit_days
    }

    pub fn mode(&self) -> (r: TransportMode)
        ensures
            r == self.spec_mode(),
    {
        self.mode
    }

    pub fn reliability_bps(&self) -> (r: u16)
        ensures
            r == self.spec_reliability_bps(),
            r <= 10_000,
    {
        proof {
            use_type_invariant(self);
        }
        self.reliability_bps
    }

    pub fn carrier(&self) -> (r: Option<FirmId>)
        ensures
            r == self.spec_carrier(),
    {
        self.carrier
    }

    /// The same route with `added` more monthly capacity.
    pub closed spec fn spec_widened(self, added: u64) -> LogisticsRoute {
        LogisticsRoute {
            monthly_capacity: QuantityMilli::spec_from((self.monthly_capacity@ + added) as u64),
            ..self
        }
    }

    /// Adds monthly capacity; fails without change on overflow.
    pub fn add_capacity(&mut self, added: QuantityMilli) -> (r: Result<(), WorldError>)
        ensures
            old(self).spec_capacity() + added@ > u64::MAX ==> r == Err::<(), WorldError>(
                WorldError::ArithmeticOverflow("route capacity"),
            ) && *final(self) == *old(self),
            old(self).spec_capacity() + added@ <= u64::MAX ==> r is Ok && *final(self) == old(
                self,
            ).spec_widened(added@),
            final(self).spec_capacity() == (if old(self).spec_capacity() + added@ > u64::MAX {
                old(self).spec_capacity() as int
            } else {
                old(self).spec_capacity() + added@
            }),
    {
        proof {
            use_type_invariant(&*self);
        }
        let current = self.monthly_capacity.get();
        if current > u64::MAX - added.get() {
            return Err(WorldError::ArithmeticOverflow("route capacity"));
        }
        self.monthly_capacity = QuantityMilli::new(current + added.get());
        Ok(())
    }

    /// The same route operated by `carrier`.
    pub fn with_carrier(self, carrier: FirmId) -> (r: Self)
        ensures
            r.spec_id() == self.spec_id(),
            r.spec_origin() == self.spec_origin(),
            r.spec_destination() == self.spec_destination(),
            r.spec_mode() == self.spec_mode(),
            r.spec_capacity() == self.spec_capacity(),
            r.spec_cost_per_unit() == self.spec_cost_per_unit(),
            r.spec_transit_days() == self.spec_transit_days(),
            r.spec_reliability_bps() == self.spec_reliability_bps(),
            r.spec_carrier() == Some(carrier),
    {
        proof {
            use_type_invariant(&self);
        }
        LogisticsRoute { carrier: Some(carrier), ..self }
    }
}

/// A request to move a quantity of a good between two regions within a budget.
#[derive(Clone, Debug, PartialEq, Eq)]
pub struct ShipmentOrder {
    pub id: ShipmentId,
    pub good: GoodId,
    pub origin: RegionId,
    pub destination: RegionId,
    pub quantity: QuantityMilli,
    pub max_total_cost: Money,
}

impl ShipmentOrder {
    pub fn new(
        id: ShipmentId,
        good: GoodId,
        origin: RegionId,
        destination: RegionId,
        quantity: QuantityMilli,
        max_total_cost: Money,
    ) -> (r: Self)
        ensures
            r == (ShipmentOrder { id, good, origin, destination, quantity, max_total_cost }),
    {
        ShipmentOrder { id, good, origin, destination, quantity, max_total_cost }
    }

    pub fn id(&self) -> (r: ShipmentId)
        ensures
            r == self.id,
    {
        self.id
    }

    pub fn good(&self) -> (r: GoodId)
        ensures
            r == self.good,
    {
        self.good
    }

    pub fn origin(&self) -> (r: RegionId)
        ensures
            r == self.origin,
    {
        self.origin
    }

    pub fn destination(&self) -> (r: RegionId)
        ensures
            r == self.destination,
    {
        self.destination
    }

    pub fn quantity(&self) -> (r: QuantityMilli)
        ensures
            r == self.quantity,
    {
        self.quantity
    }

    pub fn max_total_cost(&self) -> (r: Money)
        ensures
            r == self.max_total_cost,
    {
        self.max_total_cost
    }
}

/// A chosen direct route for an order.
#[derive(Clone, Debug, PartialEq, Eq)]
pub struct ShipmentPlan {
    pub shipment: ShipmentId,
    pub route: RouteId,
    pub total_cost: Money,
    pub arrival_days: u16,
}

/// The cost of moving `quantity` thousandths of a unit at `cost_per_unit` per unit,
/// rounded toward zero.
pub open spec fn leg_cost(cost_per_unit: i64, quantity: u64) -> int {
    (cost_per_unit as int * quantity as int) / 1000
}

/// Computes `leg_cost`, or `None` when it does not fit in `i64`.
pub fn checked_leg_cost(cost_per_unit: Money, quantity: QuantityMilli) -> (r: Option<i64>)
    requires
        cost_per_unit@ > 0,
    ensures
        r is Some <==> leg_cost(cost_per_unit@, quantity@) <= i64::MAX,
        r matches Some(c) ==> c == leg_cost(cost_per_unit@, quantity@) && c >= 0,
{
    let c = cost_per_unit.minor_units() as u128;
    let q = quantity.get() as u128;
    assert(c * q <= 0x7fff_ffff_ffff_ffff * 0xffff_ffff_ffff_ffffu128) by (nonlinear_arith)
        requires
            c <= 0x7fff_ffff_ffff_ffff,
            q <= 0xffff_ffff_ffff_ffff,
    ;
    let product: u128 = c * q;
    let cost: u128 = product / 1000;
    proof {
        assert(cost_per_unit@ as int * quantity@ as int >= 0) by (nonlinear_arith)
            requires
                cost_per_unit@ > 0,
        ;
    }
    if cost > i64::MAX as u128 {
        None
    } else {
        Some(cost as i64)
    }
}

/// Whether route `r` directly serves `order`: same endpoints and enough capacity.
pub open spec fn serves_directly(order: ShipmentOrder, r: LogisticsRoute) -> bool {
    &&& r.spec_origin() == order.origin
    &&& r.spec_destination() == order.destination
    &&& r.spec_capacity() >= order.quantity@
}

/// Whether route `r` serves `order` directly within its budget.
pub open spec fn direct_feasible(order: ShipmentOrder, r: LogisticsRoute) -> bool {
    &&& serves_directly(order, r)
    &&& leg_cost(r.spec_cost_per_unit(), order.quantity@) <= order.max_total_cost@
}

/// Whether `(cost, id)` of route `a` comes strictly before that of route `b`.
pub open spec fn direct_before(order: ShipmentOrder, a: LogisticsRoute, b: LogisticsRoute) -> bool {
    let ca = leg_cost(a.spec_cost_per_unit(), order.quantity@);
    let cb = leg_cost(b.spec_cost_per_unit(), order.quantity@);
    ca < cb || (ca == cb && a.spec_id()@ < b.spec_id()@)
}

/// Route `i` is the cheapest feasible direct route, ties broken by route ID and then
/// by position.
pub open spec fn is_best_direct(order: ShipmentOrder, routes: Seq<LogisticsRoute>, i: int) -> bool {
    &&& 0 <= i < routes.len()
    &&& direct_feasible(order, routes[i])
    &&& forall|j: int|
        0 <= j < routes.len() && direct_feasible(order, #[trigger] routes[j]) ==> !direct_before(
            order,
            routes[j],
            routes[i],
        )
    &&& forall|j: int|
        0 <= j < i && direct_feasible(order, #[trigger] routes[j]) ==> direct_before(
            order,
            routes[i],
            routes[j],
        ) || direct_before(order, routes[j], routes[i])
}

/// Chooses the cheapest feasible direct route, breaking equal costs by route ID.
/// Fails with `ArithmeticOverflow` when the cost of a route serving the order does
/// not fit in `i64`, and with `NoFeasibleLogisticsRoute` when no route serves the
/// order within capacity and budget.
pub fn plan_direct_shipment(order: &ShipmentOrder, routes: &[LogisticsRoute]) -> (r: Result<
    ShipmentPlan,
    WorldError,
>)
    ensures
        (exists|j: int|
            0 <= j < routes@.len() && serves_directly(*order, #[trigger] routes@[j]) && leg_cost(
                routes@[j].spec_cost_per_unit(),
                order.quantity@,
            ) > i64::MAX) ==> r == Err::<ShipmentPlan, WorldError>(
            WorldError::ArithmeticOverflow("shipment cost"),
        ),
        !(exists|j: int|
            0 <= j < routes@.len() && serves_directly(*order, #[trigger] routes@[j]) && leg_cost(
                routes@[j].spec_cost_per_unit(),
                order.quantity@,
            ) > i64::MAX) ==> {
            &&& (forall|j: int|
                0 <= j < routes@.len() ==> !direct_feasible(*order, #[trigger] routes@[j]))
                ==> r == Err::<ShipmentPlan, WorldError>(
                WorldError::NoFeasibleLogisticsRoute(order.id),
            )
            &&& (exists|j: int| 0 <= j < routes@.len() && direct_feasible(*order, #[trigger] routes@[j]))
                ==> exists|i: int|
                #![trigger routes@[i]]
                is_best_direct(*order, routes@, i) && r == Ok::<ShipmentPlan, WorldError>(
                    ShipmentPlan {
                        shipment: order.id,
                        route: routes@[i].spec_id(),
                        total_cost: r->Ok_0.total_cost,
                        arrival_days: routes@[i].spec_transit_days(),
                    },
                ) && r->Ok_0.total_cost@ == leg_cost(routes@[i].spec_cost_per_unit(), order.quantity@)
        },
{
    let mut best: Option<usize> = None;
    let mut best_cost: i64 = 0;
    let mut index: usize = 0;
    while index < routes.len()
        invariant
            index <= routes@.len(),
            forall|j: int|
                0 <= j < index && serves_directly(*order, #[trigger] routes@[j]) ==> leg_cost(
                    routes@[j].spec_cost_per_unit(),
                    order.quantity@,
                ) <= i64::MAX,
            best is None ==> forall|j: int|
                0 <= j < index ==> !direct_feasible(*order, #[trigger] routes@[j]),
            best matches Some(b) ==> {
                &&& b < index
                &&& direct_feasible(*order, routes@[b as int])
                &&& best_cost == leg_cost(routes@[b as int].spec_cost_per_unit(), order.quantity@)
                &&& forall|j: int|
                    0 <= j < index && direct_feasible(*order, #[trigger] routes@[j]) ==> !direct_before(
                        *order,
                        routes@[j],
                        routes@[b as int],
                    )
                &&& forall|j: int|
                    0 <= j < b && direct_feasible(*order, #[trigger] routes@[j]) ==> direct_before(
                        *order,
                        routes@[b as int],
                        routes@[j],
                    ) || direct_before(*order, routes@[j], routes@[b as int])
            },
        decreases routes@.len() - index,
    {
        let route = &routes[index];
        if route.origin() == order.origin && route.destination() == order.destination
            && route.capacity().get() >= order.quantity.get() {
            let cost = match checked_leg_cost(route.cost_per_unit(), order.quantity) {
                Some(c) => c,
                None => {
                    return Err(WorldError::ArithmeticOverflow("shipment cost"));
                },
            };
            if cost <= order.max_total_cost.minor_units() {
                match best {
                    None => {
                        best = Some(index);
                        best_cost = cost;
                    },
                    Some(b) => {
                        let current = &routes[b];
                        if cost < best_cost || (cost == best_cost && route.id().get()
                            < current.id().get()) {
                            best = Some(index);
                            best_cost = cost;
                        }
                    },
                }
            }
        }
        index = index + 1;
    }
    match best {
        None => Err(WorldError::NoFeasibleLogisticsRoute(order.id)),
        Some(b) => {
            let route = &routes[b];
            Ok(
                ShipmentPlan {
                    shipment: order.id,
                    route: route.id(),
                    total_cost: Money::from_minor_units(best_cost),
                    arrival_days: route.transit_days(),
                },
            )
        },
    }
}

/// A chosen multi-leg route sequence for an order.
#[derive(Clone, Debug, PartialEq, Eq)]
pub struct MultiLegShipmentPlan {
    pub shipment: ShipmentId,
    pub routes: Vec<RouteId>,
    pub total_cost: Money,
    pub arrival_days: u32,
}

} // verus!

verus! {

/// Quantity reserved under `id`, zero when absent.
pub open spec fn used_of(m: Map<u32, u64>, id: u32) -> int {
    if m.contains_key(id) {
        m[id] as int
    } else {
        0
    }
}

/// The reservations after adding `q` on each route of `ids` in turn.
pub open spec fn add_all(m: Map<u32, u64>, ids: Seq<RouteId>, q: u64) -> Map<u32, u64>
    decreases ids.len(),
{
    if ids.len() == 0 {
        m
    } else {
        let before = add_all(m, ids.drop_last(), q);
        let id = ids.last()@;
        before.insert(id, (used_of(before, id) + q) as u64)
    }
}

/// Whether adding `q` on each route of `ids` in turn stays within `u64`.
pub open spec fn add_all_fits(m: Map<u32, u64>, ids: Seq<RouteId>, q: u64) -> bool
    decreases ids.len(),
{
    if ids.len() == 0 {
        true
    } else {
        let before = add_all(m, ids.drop_last(), q);
        add_all_fits(m, ids.drop_last(), q) && used_of(before, ids.last()@) + q <= u64::MAX
    }
}

/// The reservations after releasing `q` on each route of `ids` in turn, dropping
/// entries that reach zero.
pub open spec fn release_all(m: Map<u32, u64>, ids: Seq<RouteId>, q: u64) -> Map<u32, u64>
    decreases ids.len(),
{
    if ids.len() == 0 {
        m
    } else {
        let before = release_all(m, ids.drop_last(), q);
        let id = ids.last()@;
        let left = used_of(before, id) - q;
        if left == 0 {
            before.remove(id)
        } else {
            before.insert(id, left as u64)
        }
    }
}

/// Whether each release of `ids` in turn finds an entry holding at least `q`.
pub open spec fn release_all_fits(m: Map<u32, u64>, ids: Seq<RouteId>, q: u64) -> bool
    decreases ids.len(),
{
    if ids.len() == 0 {
        true
    } else {
        let before = release_all(m, ids.drop_last(), q);
        &&& release_all_fits(m, ids.drop_last(), q)
        &&& before.contains_key(ids.last()@)
        &&& before[ids.last()@] >= q
    }
}

/// The last route of `routes` with ID `id`.
pub open spec fn last_route_with_id(routes: Seq<LogisticsRoute>, id: RouteId) -> Option<
    LogisticsRoute,
>
    decreases routes.len(),
{
    if routes.len() == 0 {
        None
    } else if routes.last().spec_id() == id {
        Some(routes.last())
    } else {
        last_route_with_id(routes.drop_last(), id)
    }
}

/// Why reserving `q` on `id` fails against the reservations `m`, if it does.
pub open spec fn reserve_failure(
    m: Map<u32, u64>,
    routes: Seq<LogisticsRoute>,
    id: RouteId,
    q: u64,
) -> Option<WorldError> {
    match last_route_with_id(routes, id) {
        None => Some(WorldError::UnknownLogisticsRoute(id)),
        Some(route) => if used_of(m, id@) + q > u64::MAX {
            Some(WorldError::ArithmeticOverflow("route reservation"))
        } else if used_of(m, id@) + q > route.spec_capacity() {
            Some(WorldError::InsufficientRouteCapacity(id))
        } else {
            None
        },
    }
}

/// Shared monthly capacity reserved on routes by shipments in transit.
#[derive(Clone, Debug, Default, PartialEq, Eq)]
pub struct RouteCapacityLedger {
    pub reserved: BTreeMap<u32, QuantityMilli>,
}

impl RouteCapacityLedger {
    /// Reserved quantity by route ID.
    pub open spec fn view(&self) -> Map<u32, u64> {
        self.reserved@.map_values(|q: QuantityMilli| q@)
    }

    /// An empty ledger.
    pub fn new() -> (r: Self)
        ensures
            r@ == Map::<u32, u64>::empty(),
    {
        let r = RouteCapacityLedger { reserved: BTreeMap::new() };
        assert(r@ =~= Map::<u32, u64>::empty());
        r
    }

    pub fn reserved(&self) -> (r: &BTreeMap<u32, QuantityMilli>)
        ensures
            r == &self.reserved,
    {
        &self.reserved
    }

    /// The quantity reserved on one route, zero when none.
    pub fn reserved_on(&self, id: RouteId) -> (r: QuantityMilli)
        ensures
            r@ == used_of(self@, id@),
    {
        match self.reserved.get(&id.get()) {
            Some(q) => *q,
            None => QuantityMilli::new(0),
        }
    }

    /// Atomically reserves `quantity` on every route of a plan: either every check
    /// passes against the reservations before the call and each route is charged, or
    /// the first failing route's error is returned and nothing changes.
    pub fn reserve(
        &mut self,
        plan: &MultiLegShipmentPlan,
        quantity: QuantityMilli,
        routes: &[LogisticsRoute],
    ) -> (r: Result<(), WorldError>)
        requires
            (forall|k: int|
                0 <= k < plan.routes@.len() ==> reserve_failure(
                    old(self)@,
                    routes@,
                    #[trigger] plan.routes@[k],
                    quantity@,
                ) is None) ==> add_all_fits(old(self)@, plan.routes@, quantity@),
        ensures
            (forall|k: int|
                0 <= k < plan.routes@.len() ==> reserve_failure(
                    old(self)@,
                    routes@,
                    #[trigger] plan.routes@[k],
                    quantity@,
                ) is None) ==> r is Ok && final(self)@ == add_all(
                old(self)@,
                plan.routes@,
                quantity@,
            ),
            (exists|k: int|
                0 <= k < plan.routes@.len() && reserve_failure(
                    old(self)@,
                    routes@,
                    #[trigger] plan.routes@[k],
                    quantity@,
                ) is Some) ==> r is Err,
            r is Err ==> final(self)@ == old(self)@ && exists|k: int|
                #![trigger plan.routes@[k]]
                0 <= k < plan.routes@.len() && r == Err::<(), WorldError>(
                    reserve_failure(old(self)@, routes@, plan.routes@[k], quantity@)->Some_0,
                ) && reserve_failure(old(self)@, routes@, plan.routes@[k], quantity@) is Some
                    && forall|j: int|
                    0 <= j < k ==> reserve_failure(
                        old(self)@,
                        routes@,
                        #[trigger] plan.routes@[j],
                        quantity@,
                    ) is None,
    {
        let ghost start = self@;
        let mut k: usize = 0;
        while k < plan.routes.len()
            invariant
                k <= plan.routes@.len(),
                self@ == start,
                forall|j: int|
                    0 <= j < k ==> reserve_failure(
                        start,
                        routes@,
                        #[trigger] plan.routes@[j],
                        quantity@,
                    ) is None,
            decreases plan.routes@.len() - k,
        {
            let id = plan.routes[k];
            let route = match find_last_route(routes, id) {
                Some(route) => route,
                None => {
                    return Err(WorldError::UnknownLogisticsRoute(id));
                },
            };
            let used = self.reserved_on(id).get();
            if used > u64::MAX - quantity.get() {
                return Err(WorldError::ArithmeticOverflow("route reservation"));
            }
            let next = used + quantity.get();
            if next > route.capacity().get() {
                return Err(WorldError::InsufficientRouteCapacity(id));
            }
            k = k + 1;
        }
        let mut k: usize = 0;
        while k < plan.routes.len()
            invariant
                k <= plan.routes@.len(),
                add_all_fits(start, plan.routes@, quantity@),
                self@ == add_all(start, plan.routes@.take(k as int), quantity@),
            decreases plan.routes@.len() - k,
        {
            proof {
                assert(plan.routes@.take(k + 1).drop_last() == plan.routes@.take(k as int));
                lemma_add_all_fits_prefix(start, plan.routes@, quantity@, k + 1);
            }
            let id = plan.routes[k];
            let used = self.reserved_on(id).get();
            self.reserved.insert(id.get(), QuantityMilli::new(used + quantity.get()));
            k = k + 1;
            proof {
                assert(self@ =~= add_all(start, plan.routes@.take(k as int), quantity@));
            }
        }
        proof {
            assert(plan.routes@.take(k as int) == plan.routes@);
        }
        Ok(())
    }

    /// Releases `quantity` on every listed route after delivery or cancellation; fails
    /// with `InvalidLogistics`, changing nothing, when a route holds less than that.
    pub fn release(&mut self, routes: &[RouteId], quantity: QuantityMilli) -> (r: Result<
        (),
        WorldError,
    >)
        requires
            (forall|k: int| 0 <= k < routes@.len() ==> used_of(old(self)@, (#[trigger] routes@[k])@)
                >= quantity@) ==> release_all_fits(old(self)@, routes@, quantity@),
        ensures
            (forall|k: int| 0 <= k < routes@.len() ==> used_of(old(self)@, (#[trigger] routes@[k])@)
                >= quantity@) ==> r is Ok && final(self)@ == release_all(
                old(self)@,
                routes@,
                quantity@,
            ),
            !(forall|k: int| 0 <= k < routes@.len() ==> used_of(old(self)@, (#[trigger] routes@[k])@)
                >= quantity@) ==> r == Err::<(), WorldError>(
                WorldError::InvalidLogistics("release exceeds reservation"),
            ) && final(self)@ == old(self)@,
    {
        let ghost start = self@;
        let mut k: usize = 0;
        while k < routes.len()
            invariant
                k <= routes@.len(),
                self@ == start,
                forall|j: int| 0 <= j < k ==> used_of(start, (#[trigger] routes@[j])@) >= quantity@,
            decreases routes@.len() - k,
        {
            if self.reserved_on(routes[k]).get() < quantity.get() {
                return Err(WorldError::InvalidLogistics("release exceeds reservation"));
            }
            k = k + 1;
        }
        let mut k: usize = 0;
        while k < routes.len()
            invariant
                k <= routes@.len(),
                release_all_fits(start, routes@, quantity@),
                self@ == release_all(start, routes@.take(k as int), quantity@),
            decreases routes@.len() - k,
        {
            proof {
                assert(routes@.take(k + 1).drop_last() == routes@.take(k as int));
                lemma_release_all_fits_prefix(start, routes@, quantity@, k + 1);
            }
            let id = routes[k];
            let used = self.reserved_on(id).get() - quantity.get();
            if used == 0 {
                self.reserved.remove(&id.get());
            } else {
                self.reserved.insert(id.get(), QuantityMilli::new(used));
            }
            k = k + 1;
            proof {
                assert(self@ =~= release_all(start, routes@.take(k as int), quantity@));
            }
        }
        proof {
            assert(routes@.take(k as int) == routes@);
        }
        Ok(())
    }
}

proof fn lemma_add_all_fits_prefix(m: Map<u32, u64>, ids: Seq<RouteId>, q: u64, n: int)
    requires
        add_all_fits(m, ids, q),
        0 <= n <= ids.len(),
    ensures
        add_all_fits(m, ids.take(n), q),
    decreases ids.len(),
{
    if n < ids.len() {
        assert(ids.drop_last().take(n) == ids.take(n));
        lemma_add_all_fits_prefix(m, ids.drop_last(), q, n);
    } else {
        assert(ids.take(n) == ids);
    }
}

proof fn lemma_release_all_fits_prefix(m: Map<u32, u64>, ids: Seq<RouteId>, q: u64, n: int)
    requires
        release_all_fits(m, ids, q),
        0 <= n <= ids.len(),
    ensures
        release_all_fits(m, ids.take(n), q),
    decreases ids.len(),
{
    if n < ids.len() {
        assert(ids.drop_last().take(n) == ids.take(n));
        lemma_release_all_fits_prefix(m, ids.drop_last(), q, n);
    } else {
        assert(ids.take(n) == ids);
    }
}

/// The last route of `routes` whose ID is `id`.
fn find_last_route(routes: &[LogisticsRoute], id: RouteId) -> (r: Option<&LogisticsRoute>)
    ensures
        r matches Some(route) ==> last_route_with_id(routes@, id) == Some(*route),
        r is None ==> last_route_with_id(routes@, id) is None,
{
    let mut k: usize = routes.len();
    assert(routes@.take(k as int) == routes@);
    while k > 0
        invariant
            k <= routes@.len(),
            last_route_with_id(routes@, id) == last_route_with_id(routes@.take(k as int), id),
        decreases k,
    {
        proof {
            assert(routes@.take(k as int).drop_last() == routes@.take(k - 1));
        }
        if routes[k - 1].id() == id {
            return Some(&routes[k - 1]);
        }
        k = k - 1;
    }
    None
}

} // verus!

verus! {

/// The stage of a shipment.
#[derive(Clone, Copy, Debug, PartialEq, Eq, Structural)]
pub enum ShipmentStatus {
    Planned,
    Reserved,
    InTransit,
    Delivered,
    Cancelled,
}

/// A shipment moving along a planned route sequence.
#[derive(Clone, Debug, PartialEq, Eq)]
pub struct ShipmentLifecycle {
    pub id: ShipmentId,
    pub routes: Vec<RouteId>,
    pub quantity: QuantityMilli,
    pub remaining_days: u32,
    pub status: ShipmentStatus,
}

impl ShipmentLifecycle {
    /// A planned shipment of `quantity` along a plan.
    pub fn from_plan(plan: &MultiLegShipmentPlan, quantity: QuantityMilli) -> (r: Self)
        ensures
            r.id == plan.shipment,
            r.routes@ == plan.routes@,
            r.quantity == quantity,
            r.remaining_days == plan.arrival_days,
            r.status == ShipmentStatus::Planned,
    {
        ShipmentLifecycle {
            id: plan.shipment,
            routes: plan.routes.clone(),
            quantity,
            remaining_days: plan.arrival_days,
            status: ShipmentStatus::Planned,
        }
    }

    pub fn status(&self) -> (r: ShipmentStatus)
        ensures
            r == self.status,
    {
        self.status
    }

    pub fn remaining_days(&self) -> (r: u32)
        ensures
            r == self.remaining_days,
    {
        self.remaining_days
    }

    pub fn id(&self) -> (r: ShipmentId)
        ensures
            r == self.id,
    {
        self.id
    }

    pub fn routes(&self) -> (r: &[RouteId])
        ensures
            r@ == self.routes@,
    {
        self.routes.as_slice()
    }

    pub fn quantity(&self) -> (r: QuantityMilli)
        ensures
            r == self.quantity,
    {
        self.quantity
    }

    /// Reserves route capacity and starts transit; a shipment that is not planned,
    /// or whose reservation fails, is left unchanged together with the ledger.
    pub fn start(&mut self, ledger: &mut RouteCapacityLedger, routes: &[LogisticsRoute]) -> (r:
        Result<(), WorldError>)
        requires
            (forall|k: int|
                0 <= k < old(self).routes@.len() ==> reserve_failure(
                    old(ledger)@,
                    routes@,
                    #[trigger] old(self).routes@[k],
                    old(self).quantity@,
                ) is None) ==> add_all_fits(old(ledger)@, old(self).routes@, old(self).quantity@),
        ensures
            old(self).status != ShipmentStatus::Planned ==> r == Err::<(), WorldError>(
                WorldError::InvalidLogistics("shipment is not planned"),
            ) && *final(self) == *old(self) && final(ledger)@ == old(ledger)@,
            old(self).status == ShipmentStatus::Planned && (forall|k: int|
                0 <= k < old(self).routes@.len() ==> reserve_failure(
                    old(ledger)@,
                    routes@,
                    #[trigger] old(self).routes@[k],
                    old(self).quantity@,
                ) is None) ==> r is Ok && final(ledger)@ == add_all(
                old(ledger)@,
                old(self).routes@,
                old(self).quantity@,
            ) && *final(self) == (ShipmentLifecycle {
                status: ShipmentStatus::InTransit,
                ..*old(self)
            }),
            old(self).status == ShipmentStatus::Planned && (exists|k: int|
                0 <= k < old(self).routes@.len() && reserve_failure(
                    old(ledger)@,
                    routes@,
                    #[trigger] old(self).routes@[k],
                    old(self).quantity@,
                ) is Some) ==> exists|k: int|
                #![trigger old(self).routes@[k]]
                0 <= k < old(self).routes@.len() && r == Err::<(), WorldError>(
                    reserve_failure(old(ledger)@, routes@, old(self).routes@[k], old(self).quantity@)->Some_0,
                ) && forall|j: int|
                    0 <= j < k ==> reserve_failure(
                        old(ledger)@,
                        routes@,
                        #[trigger] old(self).routes@[j],
                        old(self).quantity@,
                    ) is None,
            r is Err ==> *final(self) == *old(self) && final(ledger)@ == old(ledger)@,
    {
        if self.status != ShipmentStatus::Planned {
            return Err(WorldError::InvalidLogistics("shipment is not planned"));
        }
        let plan = MultiLegShipmentPlan {
            shipment: self.id,
            routes: self.routes.clone(),
            total_cost: Money::zero(),
            arrival_days: self.remaining_days,
        };
        ledger.reserve(&plan, self.quantity, routes)?;
        self.status = ShipmentStatus::InTransit;
        Ok(())
    }

    /// Advances transit by `days`; on arrival releases the capacity and marks the
    /// shipment delivered. Only a shipment in transit can advance.
    pub fn advance_days(&mut self, days: u32, ledger: &mut RouteCapacityLedger) -> (r: Result<
        (),
        WorldError,
    >)
        requires
            (forall|k: int|
                0 <= k < old(self).routes@.len() ==> used_of(
                    old(ledger)@,
                    (#[trigger] old(self).routes@[k])@,
                ) >= old(self).quantity@) ==> release_all_fits(
                old(ledger)@,
                old(self).routes@,
                old(self).quantity@,
            ),
        ensures
            old(self).status != ShipmentStatus::InTransit ==> r == Err::<(), WorldError>(
                WorldError::InvalidLogistics("shipment is not in transit"),
            ) && *final(self) == *old(self) && final(ledger)@ == old(ledger)@,
            old(self).status == ShipmentStatus::InTransit ==> {
                let left = if old(self).remaining_days > days {
                    (old(self).remaining_days - days) as u32
                } else {
                    0u32
                };
                &&& final(self).remaining_days == left
                &&& final(self).id == old(self).id
                &&& final(self).routes == old(self).routes
                &&& final(self).quantity == old(self).quantity
                &&& left > 0 ==> r is Ok && final(self).status == ShipmentStatus::InTransit
                    && final(ledger)@ == old(ledger)@
                &&& left == 0 && (forall|k: int|
                    0 <= k < old(self).routes@.len() ==> used_of(
                        old(ledger)@,
                        (#[trigger] old(self).routes@[k])@,
                    ) >= old(self).quantity@) ==> r is Ok && final(self).status
                    == ShipmentStatus::Delivered && final(ledger)@ == release_all(
                    old(ledger)@,
                    old(self).routes@,
                    old(self).quantity@,
                )
                &&& left == 0 && !(forall|k: int|
                    0 <= k < old(self).routes@.len() ==> used_of(
                        old(ledger)@,
                        (#[trigger] old(self).routes@[k])@,
                    ) >= old(self).quantity@) ==> r == Err::<(), WorldError>(
                    WorldError::InvalidLogistics("release exceeds reservation"),
                ) && final(self).status == ShipmentStatus::InTransit && final(ledger)@ == old(
                    ledger,
                )@
            },
    {
        if self.status != ShipmentStatus::InTransit {
            return Err(WorldError::InvalidLogistics("shipment is not in transit"));
        }
        self.remaining_days = self.remaining_days.saturating_sub(days);
        if self.remaining_days == 0 {
            ledger.release(self.routes.as_slice(), self.quantity)?;
            self.status = ShipmentStatus::Delivered;
        }
        Ok(())
    }
}

/// What registering a route answers when it is refused, or `None`.
pub open spec fn route_refusal(w: WorldView, route: LogisticsRoute) -> Option<WorldError> {
    if w.logistics_routes.contains_key(route.spec_id()@) {
        Some(WorldError::DuplicateLogisticsRoute(route.spec_id()))
    } else if !w.regions.contains_key(route.spec_origin()@) {
        Some(WorldError::UnknownRegion(route.spec_origin()))
    } else if !w.regions.contains_key(route.spec_destination()@) {
        Some(WorldError::UnknownRegion(route.spec_destination()))
    } else {
        match route.spec_carrier() {
            None => Some(WorldError::InvalidLogistics("route requires a carrier firm")),
            Some(c) => if !w.firms.contains_key(c@) {
                Some(WorldError::UnknownFirm(c))
            } else {
                None
            },
        }
    }
}


/// Whether the route stored under `k` runs directly from region `o` to region `d`.
pub open spec fn route_serves(w: WorldView, k: u32, o: u32, d: u32) -> bool {
    &&& w.logistics_routes.contains_key(k)
    &&& w.logistics_routes[k].spec_origin()@ == o
    &&& w.logistics_routes[k].spec_destination()@ == d
}

/// Route `j` is cheaper than route `k`: a lower tariff, or the same tariff and a lower id.
pub open spec fn route_cheaper(w: WorldView, j: u32, k: u32) -> bool {
    let cj = w.logistics_routes[j].spec_cost_per_unit();
    let ck = w.logistics_routes[k].spec_cost_per_unit();
    cj < ck || (cj == ck && j < k)
}

/// Route `k` is the cheapest direct route from `o` to `d`.
pub open spec fn is_cheapest_route(w: WorldView, o: u32, d: u32, k: u32) -> bool {
    &&& route_serves(w, k, o, d)
    &&& forall|j: u32| #[trigger] route_serves(w, j, o, d) && j != k ==> !route_cheaper(w, j, k)
}

/// The direct route an immediate import from `o` to `d` takes, with its tariff: between
/// registered regions, the cheapest direct route (ties to the lower id); none otherwise.
pub open spec fn direct_route(w: WorldView, o: u32, d: u32) -> Option<(RouteId, Money)> {
    if !w.regions.contains_key(o) || !w.regions.contains_key(d) || !exists|k: u32| route_serves(w, k, o, d) {
        None
    } else {
        let k = choose|k: u32| is_cheapest_route(w, o, d, k);
        Some((w.logistics_routes[k].spec_id(), Money::spec_from(w.logistics_routes[k].spec_cost_per_unit())))
    }
}

/// Two cheapest routes are the same route.
pub proof fn lemma_cheapest_route_unique(w: WorldView, o: u32, d: u32, a: u32, b: u32)
    requires
        is_cheapest_route(w, o, d, a),
        is_cheapest_route(w, o, d, b),
    ensures
        a == b,
{
    if a != b {
        assert(route_serves(w, a, o, d) && route_serves(w, b, o, d));
        assert(!route_cheaper(w, a, b));
        assert(!route_cheaper(w, b, a));
    }
}

/// The table of every direct import route: each pair of regions joined by a direct
/// route, to the route it takes and its tariff.
pub open spec fn delivery_table(w: WorldView) -> Map<(u32, u32), (RouteId, Money)> {
    Map::new(|p: (u32, u32)| direct_route(w, p.0, p.1) is Some, |p: (u32, u32)| direct_route(w, p.0, p.1)->Some_0)
}

impl World {
    /// The cheapest direct route from `origin` to `destination` and its tariff, ties to
    /// the lower route id; none when a region is unknown or no direct route exists.
    pub fn direct_market_route(&self, origin: RegionId, destination: RegionId) -> (r: Option<(RouteId, Money)>)
        ensures
            r == direct_route(self@, origin@, destination@),
    {
        broadcast use Money::lemma_spec_from_view, Money::lemma_from_own_view;
        if !self.regions.contains_key(&origin.get()) || !self.regions.contains_key(&destination.get()) {
            return None;
        }
        let keys = keys_in_order(&self.logistics_routes);
        let ghost w = self@;
        let ghost o = origin@;
        let ghost d = destination@;
        let mut best: Option<(u32, i64)> = None;
        let mut i: usize = 0;
        while i < keys.len()
            invariant
                w == self@,
                o == origin@,
                d == destination@,
                keys@ == key_order(self.logistics_routes@),
                is_key_order(self.logistics_routes@, keys@),
                forall|k: int| 0 <= k < keys@.len() ==> self.logistics_routes@.contains_key(#[trigger] keys@[k]),
                i <= keys.len(),
                best is None ==> forall|k: int| 0 <= k < i ==> !route_serves(w, #[trigger] keys@[k], o, d),
                best matches Some((bk, bc)) ==> {
                    &&& route_serves(w, bk, o, d)
                    &&& bc == w.logistics_routes[bk].spec_cost_per_unit()
                    &&& keys@.take(i as int).contains(bk)
                    &&& forall|k: int|
                        0 <= k < i && route_serves(w, #[trigger] keys@[k], o, d) && keys@[k] != bk
                            ==> !route_cheaper(w, keys@[k], bk)
                },
            decreases keys.len() - i,
        {
            let k = keys[i];
            let ghost prev = best;
            let route = self.logistics_routes.get(&k).unwrap();
            if route.origin() == origin && route.destination() == destination {
                let c = route.cost_per_unit().minor_units();
                match best {
                    None => {
                        best = Some((k, c));
                    },
                    Some((bk, bc)) => {
                        if c < bc || (c == bc && k < bk) {
                            best = Some((k, c));
                        }
                    },
                }
            }
            proof {
                assert(keys@.take(i + 1) =~= keys@.take(i as int).push(k));
                if let Some((bk, bc)) = best {
                    assert(keys@.take(i + 1).contains(bk)) by {
                        if bk == k {
                            assert(keys@.take(i + 1)[i as int] == k);
                        } else {
                            let pk = prev->Some_0.0;
                            let x = choose|x: int| 0 <= x < i && keys@.take(i as int)[x] == pk;
                            assert(keys@.take(i + 1)[x] == pk);
                        }
                    }
                    assert forall|j: int|
                        0 <= j < i + 1 && route_serves(w, #[trigger] keys@[j], o, d) && keys@[j] != bk implies !route_cheaper(
                        w,
                        keys@[j],
                        bk,
                    ) by {
                        if j < i {
                            if let Some((pk, pc)) = prev {
                                if bk != pk {
                                    assert(bk == k);
                                    assert(route_cheaper(w, k, pk));
                                    if keys@[j] != pk {
                                        assert(!route_cheaper(w, keys@[j], pk));
                                    }
                                }
                            }
                        } else {
                            assert(keys@[j] == k);
                        }
                    }
                }
            }
            i = i + 1;
        }
        match best {
            None => {
                proof {
                    assert forall|k: u32| !route_serves(w, k, o, d) by {
                        if route_serves(w, k, o, d) {
                            assert(keys@.to_set().contains(k));
                            let j = choose|j: int| 0 <= j < keys@.len() && keys@[j] == k;
                        }
                    }
                }
                None
            },
            Some((bk, bc)) => {
                proof {
                    assert(keys@.take(keys@.len() as int) =~= keys@);
                    assert forall|j: u32| #[trigger] route_serves(w, j, o, d) && j != bk implies !route_cheaper(w, j, bk) by {
                        assert(keys@.to_set().contains(j));
                        let x = choose|x: int| 0 <= x < keys@.len() && keys@[x] == j;
                    }
                    assert(is_cheapest_route(w, o, d, bk));
                    let c = choose|k: u32| is_cheapest_route(w, o, d, k);
                    lemma_cheapest_route_unique(w, o, d, c, bk);
                }
                let route = self.logistics_routes.get(&bk).unwrap();
                Some((route.id(), route.cost_per_unit()))
            },
        }
    }

    /// The delivery table of every direct import route (see `delivery_table`), as the
    /// market clearing takes it.
    pub fn delivery_table(&self) -> (r: BTreeMap<(u32, u32), (RouteId, Money)>)
        ensures
            r@ == delivery_table(self@),
    {
        let keys = keys_in_order(&self.logistics_routes);
        let ghost w = self@;
        let mut table: BTreeMap<(u32, u32), (RouteId, Money)> = BTreeMap::new();
        let mut i: usize = 0;
        while i < keys.len()
            invariant
                w == self@,
                keys@ == key_order(self.logistics_routes@),
                is_key_order(self.logistics_routes@, keys@),
                forall|k: int| 0 <= k < keys@.len() ==> self.logistics_routes@.contains_key(#[trigger] keys@[k]),
                i <= keys.len(),
                forall|p: (u32, u32)|
                    #[trigger] table@.contains_key(p) ==> direct_route(w, p.0, p.1) == Some(table@[p]),
                forall|k: int|
                    0 <= k < i ==> {
                        let r = w.logistics_routes[#[trigger] keys@[k]];
                        direct_route(w, r.spec_origin()@, r.spec_destination()@) is Some ==> table@.contains_key(
                            (r.spec_origin()@, r.spec_destination()@),
                        )
                    },
            decreases keys.len() - i,
        {
            let route = self.logistics_routes.get(&keys[i]).unwrap();
            let o = route.origin();
            let d = route.destination();
            match self.direct_market_route(o, d) {
                Some(entry) => {
                    table.insert((o.get(), d.get()), entry);
                },
                None => {},
            }
            i = i + 1;
        }
        proof {
            assert forall|p: (u32, u32)| table@.contains_key(p) <==> direct_route(w, p.0, p.1) is Some by {
                if direct_route(w, p.0, p.1) is Some {
                    let k = choose|k: u32| route_serves(w, k, p.0, p.1);
                    assert(keys@.to_set().contains(k));
                    let j = choose|j: int| 0 <= j < keys@.len() && keys@[j] == k;
                    assert(w.logistics_routes[keys@[j]].spec_origin()@ == p.0);
                }
            }
            assert(table@ =~= delivery_table(w));
        }
        table
    }

    /// Registers a directed route after checking both regions and its carrier firm;
    /// rejects a duplicate or an unknown reference and then changes nothing.
    pub fn register_logistics_route(&mut self, route: LogisticsRoute) -> (r: Result<(), WorldError>)
        ensures
            route_refusal(old(self)@, route) matches Some(e) ==> r == Err::<(), WorldError>(e)
                && final(self)@ == old(self)@,
            route_refusal(old(self)@, route) is None ==> r is Ok && final(self)@ == (WorldView {
                logistics_routes: old(self)@.logistics_routes.insert(route.spec_id()@, route),
                ..old(self)@
            }),
    {
        let id = route.id();
        if self.logistics_routes.contains_key(&id.get()) {
            return Err(WorldError::DuplicateLogisticsRoute(id));
        }
        let origin = route.origin();
        if !self.regions.contains_key(&origin.get()) {
            return Err(WorldError::UnknownRegion(origin));
        }
        let destination = route.destination();
        if !self.regions.contains_key(&destination.get()) {
            return Err(WorldError::UnknownRegion(destination));
        }
        let carrier = match route.carrier() {
            Some(c) => c,
            None => {
                return Err(WorldError::InvalidLogistics("route requires a carrier firm"));
            },
        };
        if !self.firms.contains_key(&carrier.get()) {
            return Err(WorldError::UnknownFirm(carrier));
        }
        self.logistics_routes.insert(id.get(), route);
        Ok(())
    }

    pub fn logistics_routes(&self) -> (r: &BTreeMap<u32, LogisticsRoute>)
        ensures
            r@ == self@.logistics_routes,
    {
        &self.logistics_routes
    }

    pub fn route_capacity(&self) -> (r: &RouteCapacityLedger)
        ensures
            r@ == self@.route_capacity,
    {
        &self.route_capacity
    }
}

} // verus!
