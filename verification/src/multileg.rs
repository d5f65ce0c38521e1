use vstd::prelude::*;

use crate::ids::RouteId;
use crate::logistics::{checked_leg_cost, leg_cost, LogisticsRoute, MultiLegShipmentPlan, ShipmentOrder};
use crate::value::Money;
use crate::world::WorldError;

verus! {

broadcast use Money::lemma_spec_from_view;

// A path is the sequence of the positions, in the route list, of the routes it takes
// from the order's origin.

/// The freight of taking route `k` for the order's quantity.
pub open spec fn leg_of(o: ShipmentOrder, rs: Seq<LogisticsRoute>, k: int) -> int {
    leg_cost(rs[k].spec_cost_per_unit(), o.quantity@)
}

/// Where path `p` ends: the origin, or the destination of its last route.
pub open spec fn path_end(o: ShipmentOrder, rs: Seq<LogisticsRoute>, p: Seq<int>) -> crate::ids::RegionId {
    if p.len() == 0 {
        o.origin
    } else {
        rs[p.last()].spec_destination()
    }
}

/// The total freight of path `p`.
pub open spec fn path_cost(o: ShipmentOrder, rs: Seq<LogisticsRoute>, p: Seq<int>) -> int
    decreases p.len(),
{
    if p.len() == 0 {
        0
    } else {
        path_cost(o, rs, p.drop_last()) + leg_of(o, rs, p.last())
    }
}

/// The total transit days of path `p`.
pub open spec fn path_days(rs: Seq<LogisticsRoute>, p: Seq<int>) -> int
    decreases p.len(),
{
    if p.len() == 0 {
        0
    } else {
        path_days(rs, p.drop_last()) + rs[p.last()].spec_transit_days()
    }
}

/// The route ids along path `p`.
pub open spec fn path_ids(rs: Seq<LogisticsRoute>, p: Seq<int>) -> Seq<int> {
    p.map_values(|k: int| rs[k].spec_id()@ as int)
}

/// Whether path `p` has been at `region`: its origin or the end of one of its legs.
pub open spec fn path_visits(
    o: ShipmentOrder,
    rs: Seq<LogisticsRoute>,
    p: Seq<int>,
    region: crate::ids::RegionId,
) -> bool {
    region == o.origin || exists|i: int| 0 <= i < p.len() && #[trigger] rs[p[i]].spec_destination() == region
}

/// Whether path `p` may go on by route `k`: it has not arrived, has legs to spare, and
/// `k` leaves where it ends, carries the quantity, and leads somewhere new.
pub open spec fn can_extend(
    o: ShipmentOrder,
    rs: Seq<LogisticsRoute>,
    max_legs: int,
    p: Seq<int>,
    k: int,
) -> bool {
    &&& 0 <= k < rs.len()
    &&& path_end(o, rs, p) != o.destination
    &&& p.len() < max_legs
    &&& rs[k].spec_origin() == path_end(o, rs, p)
    &&& rs[k].spec_capacity() >= o.quantity@
    &&& !path_visits(o, rs, p, rs[k].spec_destination())
}

/// Whether the search walks path `p`: each leg extends the path before it and keeps the
/// freight within the budget.
pub open spec fn explored(o: ShipmentOrder, rs: Seq<LogisticsRoute>, max_legs: int, p: Seq<int>) -> bool
    decreases p.len(),
{
    p.len() == 0 || {
        let s = p.drop_last();
        &&& explored(o, rs, max_legs, s)
        &&& can_extend(o, rs, max_legs, s, p.last())
        &&& path_cost(o, rs, s) + leg_of(o, rs, p.last()) <= o.max_total_cost@
    }
}

/// Whether walked path `p` could go on by route `k` except that its freight would not
/// fit in `i64`.
pub open spec fn overflows_at(
    o: ShipmentOrder,
    rs: Seq<LogisticsRoute>,
    max_legs: int,
    p: Seq<int>,
    k: int,
) -> bool {
    &&& explored(o, rs, max_legs, p)
    &&& can_extend(o, rs, max_legs, p, k)
    &&& path_cost(o, rs, p) + leg_of(o, rs, k) > i64::MAX
}

/// Whether `p` delivers the order: a walked path that arrives within the budget.
pub open spec fn is_candidate(o: ShipmentOrder, rs: Seq<LogisticsRoute>, max_legs: int, p: Seq<int>) -> bool {
    &&& explored(o, rs, max_legs, p)
    &&& path_end(o, rs, p) == o.destination
    &&& path_cost(o, rs, p) <= o.max_total_cost@
}

/// Strict lexicographic order: `a` is a proper prefix of `b`, or they first differ at a
/// position where `a` is smaller.
pub open spec fn lex_lt(a: Seq<int>, b: Seq<int>) -> bool {
    exists|i: int| #[trigger] lex_lt_at(a, b, i)
}

/// `a` and `b` agree before `i`, and `i` is where `a` ends first or is smaller.
pub open spec fn lex_lt_at(a: Seq<int>, b: Seq<int>, i: int) -> bool {
    &&& 0 <= i <= a.len()
    &&& i <= b.len()
    &&& forall|t: int| 0 <= t < i ==> a[t] == b[t]
    &&& (i == a.len() && i < b.len()) || (i < a.len() && i < b.len() && a[i] < b[i])
}

/// Whether path `p` is preferred to path `q`: cheaper, then smaller route ids in order,
/// then earlier in the route list.
pub open spec fn path_before(o: ShipmentOrder, rs: Seq<LogisticsRoute>, p: Seq<int>, q: Seq<int>) -> bool {
    let cp = path_cost(o, rs, p);
    let cq = path_cost(o, rs, q);
    ||| cp < cq
    ||| cp == cq && lex_lt(path_ids(rs, p), path_ids(rs, q))
    ||| cp == cq && path_ids(rs, p) == path_ids(rs, q) && lex_lt(p, q)
}

/// Whether `p` is the preferred delivering path.
pub open spec fn is_best_path(o: ShipmentOrder, rs: Seq<LogisticsRoute>, max_legs: int, p: Seq<int>) -> bool {
    &&& is_candidate(o, rs, max_legs, p)
    &&& forall|q: Seq<int>| #[trigger] is_candidate(o, rs, max_legs, q) ==> !path_before(o, rs, q, p)
}

/// Whether `p` begins `q`.
pub open spec fn is_prefix(p: Seq<int>, q: Seq<int>) -> bool {
    p.len() <= q.len() && q.take(p.len() as int) == p
}

pub proof fn lemma_lex_lt_transitive(a: Seq<int>, b: Seq<int>, c: Seq<int>)
    requires
        lex_lt(a, b),
        lex_lt(b, c),
    ensures
        lex_lt(a, c),
{
    let i = choose|i: int| lex_lt_at(a, b, i);
    let j = choose|j: int| lex_lt_at(b, c, j);
    if i < j {
        assert(lex_lt_at(a, c, i));
    } else if j < i {
        assert(lex_lt_at(a, c, j));
    } else {
        assert(lex_lt_at(a, c, i));
    }
}

pub proof fn lemma_lex_lt_irreflexive(a: Seq<int>)
    ensures
        !lex_lt(a, a),
{
}

/// Two different sequences are ordered one way or the other.
pub proof fn lemma_lex_lt_total(a: Seq<int>, b: Seq<int>)
    requires
        a != b,
    ensures
        lex_lt(a, b) || lex_lt(b, a),
{
    let n = if a.len() < b.len() {
        a.len() as int
    } else {
        b.len() as int
    };
    if forall|t: int| 0 <= t < n ==> a[t] == b[t] {
        if a.len() == b.len() {
            assert(a =~= b);
        } else if a.len() < b.len() {
            assert(lex_lt_at(a, b, n));
        } else {
            assert(lex_lt_at(b, a, n));
        }
    } else {
        let d = choose|t: int| 0 <= t < n && a[t] != b[t];
        lemma_first_difference(a, b, d);
    }
}

proof fn lemma_first_difference(a: Seq<int>, b: Seq<int>, d: int)
    requires
        0 <= d < a.len(),
        d < b.len(),
        a[d] != b[d],
    ensures
        lex_lt(a, b) || lex_lt(b, a),
    decreases d,
{
    if exists|t: int| 0 <= t < d && a[t] != b[t] {
        let e = choose|t: int| 0 <= t < d && a[t] != b[t];
        lemma_first_difference(a, b, e);
    } else if a[d] < b[d] {
        assert(lex_lt_at(a, b, d));
    } else {
        assert(lex_lt_at(b, a, d));
    }
}

pub proof fn lemma_path_before_transitive(
    o: ShipmentOrder,
    rs: Seq<LogisticsRoute>,
    p: Seq<int>,
    q: Seq<int>,
    s: Seq<int>,
)
    requires
        path_before(o, rs, p, q),
        path_before(o, rs, q, s),
    ensures
        path_before(o, rs, p, s),
{
    let (ip, iq, is) = (path_ids(rs, p), path_ids(rs, q), path_ids(rs, s));
    if lex_lt(ip, iq) && lex_lt(iq, is) {
        lemma_lex_lt_transitive(ip, iq, is);
    }
    if lex_lt(p, q) && lex_lt(q, s) {
        lemma_lex_lt_transitive(p, q, s);
    }
}

/// Walked paths are closed under prefixes.
pub proof fn lemma_explored_prefix(
    o: ShipmentOrder,
    rs: Seq<LogisticsRoute>,
    max_legs: int,
    q: Seq<int>,
    i: int,
)
    requires
        explored(o, rs, max_legs, q),
        0 <= i <= q.len(),
    ensures
        explored(o, rs, max_legs, q.take(i)),
    decreases q.len() - i,
{
    if i == q.len() {
        assert(q.take(i) =~= q);
    } else {
        lemma_explored_prefix(o, rs, max_legs, q.drop_last(), i);
        assert(q.drop_last().take(i) =~= q.take(i));
    }
}

/// A walked path that strictly extends `p` takes a legal next leg from `p`.
pub proof fn lemma_extension_step(
    o: ShipmentOrder,
    rs: Seq<LogisticsRoute>,
    max_legs: int,
    p: Seq<int>,
    q: Seq<int>,
)
    requires
        explored(o, rs, max_legs, q),
        is_prefix(p, q),
        p.len() < q.len(),
    ensures
        explored(o, rs, max_legs, p.push(q[p.len() as int])),
        can_extend(o, rs, max_legs, p, q[p.len() as int]),
        is_prefix(p.push(q[p.len() as int]), q),
{
    let n = p.len() as int;
    lemma_explored_prefix(o, rs, max_legs, q, n + 1);
    assert(q.take(n + 1) =~= p.push(q[n]));
    assert(q.take(n + 1).drop_last() =~= p);
}

/// The best delivering path is unique.
pub proof fn lemma_best_path_unique(
    o: ShipmentOrder,
    rs: Seq<LogisticsRoute>,
    max_legs: int,
    p: Seq<int>,
    q: Seq<int>,
)
    requires
        is_best_path(o, rs, max_legs, p),
        is_best_path(o, rs, max_legs, q),
    ensures
        p == q,
{
    if p != q {
        assert(is_candidate(o, rs, max_legs, q));
        assert(is_candidate(o, rs, max_legs, p));
        let (ip, iq) = (path_ids(rs, p), path_ids(rs, q));
        if ip != iq {
            lemma_lex_lt_total(ip, iq);
        } else {
            lemma_lex_lt_total(p, q);
        }
    }
}

/// The freight of every walked path's transit days fits in `u32`.
pub open spec fn days_fit(o: ShipmentOrder, rs: Seq<LogisticsRoute>, max_legs: int) -> bool {
    forall|q: Seq<int>| #[trigger] explored(o, rs, max_legs, q) ==> path_days(rs, q) <= u32::MAX
}

/// Whether `plan` ships order `o` along path `p`.
pub open spec fn plan_follows(
    o: ShipmentOrder,
    rs: Seq<LogisticsRoute>,
    p: Seq<int>,
    plan: MultiLegShipmentPlan,
) -> bool {
    &&& plan.shipment == o.id
    &&& plan.routes@ == p.map_values(|k: int| rs[k].spec_id())
    &&& plan.total_cost@ == path_cost(o, rs, p)
    &&& plan.arrival_days == path_days(rs, p)
}

/// The integers of a sequence of machine integers.
pub open spec fn ints(s: Seq<u64>) -> Seq<int> {
    s.map_values(|x: u64| x as int)
}

/// The path of a sequence of route positions.
pub open spec fn positions(s: Seq<usize>) -> Seq<int> {
    s.map_values(|k: usize| k as int)
}

/// Every leg of a walked path is a position in the route list.
pub proof fn lemma_explored_in_range(
    o: ShipmentOrder,
    rs: Seq<LogisticsRoute>,
    max_legs: int,
    q: Seq<int>,
)
    requires
        explored(o, rs, max_legs, q),
    ensures
        forall|i: int| 0 <= i < q.len() ==> 0 <= #[trigger] q[i] < rs.len(),
    decreases q.len(),
{
    if q.len() > 0 {
        lemma_explored_in_range(o, rs, max_legs, q.drop_last());
        assert forall|i: int| 0 <= i < q.len() implies 0 <= #[trigger] q[i] < rs.len() by {
            if i < q.len() - 1 {
                assert(q[i] == q.drop_last()[i]);
            }
        }
    }
}

/// The preferred delivering path found so far, with its route ids, freight and days.
struct BestPath {
    legs: Vec<u64>,
    ids: Vec<u64>,
    cost: i64,
    days: u32,
}

/// A found path is a delivering path and its fields describe it.
spec fn best_path_wf(o: ShipmentOrder, rs: Seq<LogisticsRoute>, max_legs: int, b: BestPath) -> bool {
    &&& is_candidate(o, rs, max_legs, ints(b.legs@))
    &&& ints(b.ids@) == path_ids(rs, ints(b.legs@))
    &&& b.cost as int == path_cost(o, rs, ints(b.legs@))
    &&& b.days as int == path_days(rs, ints(b.legs@))
}

/// `after` is `before`, or a found path preferred to it.
spec fn improves(o: ShipmentOrder, rs: Seq<LogisticsRoute>, before: Option<BestPath>, after: Option<BestPath>) -> bool {
    ||| after == before
    ||| after matches Some(a) && (before matches Some(b) ==> path_before(o, rs, ints(a.legs@), ints(b.legs@)))
}

/// Compares two sequences lexicographically.
fn lex_less(a: &Vec<u64>, b: &Vec<u64>) -> (r: bool)
    ensures
        r == lex_lt(ints(a@), ints(b@)),
{
    let ghost (x, y) = (ints(a@), ints(b@));
    let mut i: usize = 0;
    while i < a.len() && i < b.len()
        invariant
            x == ints(a@),
            y == ints(b@),
            i <= a.len(),
            i <= b.len(),
            forall|t: int| 0 <= t < i ==> x[t] == y[t],
        decreases a.len() - i,
    {
        if a[i] != b[i] {
            proof {
                if a[i as int] < b[i as int] {
                    assert(lex_lt_at(x, y, i as int));
                } else {
                    assert forall|j: int| !lex_lt_at(x, y, j) by {
                        if lex_lt_at(x, y, j) && j > i {
                            assert(x[i as int] == y[i as int]);
                        }
                    }
                }
            }
            return a[i] < b[i];
        }
        i = i + 1;
    }
    proof {
        if i == a.len() && i < b.len() {
            assert(lex_lt_at(x, y, i as int));
        } else {
            assert forall|j: int| !lex_lt_at(x, y, j) by {
                if lex_lt_at(x, y, j) && j < i {
                    assert(x[j] == y[j]);
                }
            }
        }
    }
    i == a.len() && i < b.len()
}

/// Whether the route list positions in `path` pass through `region` (or start there).
fn path_passes(o: &ShipmentOrder, rs: &[LogisticsRoute], path: &Vec<usize>, region: crate::ids::RegionId) -> (r: bool)
    requires
        forall|i: int| 0 <= i < path@.len() ==> #[trigger] path@[i] < rs@.len(),
    ensures
        r == path_visits(*o, rs@, positions(path@), region),
{
    let ghost p = positions(path@);
    if region == o.origin {
        return true;
    }
    let mut i: usize = 0;
    while i < path.len()
        invariant
            p == positions(path@),
            forall|i: int| 0 <= i < path@.len() ==> #[trigger] path@[i] < rs@.len(),
            i <= path.len(),
            region != o.origin,
            forall|t: int| 0 <= t < i ==> rs@[#[trigger] p[t]].spec_destination() != region,
        decreases path.len() - i,
    {
        if rs[path[i]].destination() == region {
            assert(rs@[p[i as int]].spec_destination() == region);
            return true;
        }
        i = i + 1;
    }
    false
}

proof fn lemma_improves_transitive(
    o: ShipmentOrder,
    rs: Seq<LogisticsRoute>,
    a: Option<BestPath>,
    b: Option<BestPath>,
    c: Option<BestPath>,
)
    requires
        improves(o, rs, a, b),
        improves(o, rs, b, c),
    ensures
        improves(o, rs, a, c),
{
    if c != b && b != a {
        if let (Some(x), Some(y), Some(z)) = (a, b, c) {
            lemma_path_before_transitive(o, rs, ints(z.legs@), ints(y.legs@), ints(x.legs@));
        }
    }
}

/// A path that was not preferred to the found path is not preferred to a better one.
proof fn lemma_still_not_before(
    o: ShipmentOrder,
    rs: Seq<LogisticsRoute>,
    q: Seq<int>,
    b: BestPath,
    after: Option<BestPath>,
)
    requires
        !path_before(o, rs, q, ints(b.legs@)),
        improves(o, rs, Some(b), after),
    ensures
        after matches Some(a) && !path_before(o, rs, q, ints(a.legs@)),
{
    if let Some(a) = after {
        if path_before(o, rs, q, ints(a.legs@)) && after != Some(b) {
            lemma_path_before_transitive(o, rs, q, ints(a.legs@), ints(b.legs@));
        }
    }
}

/// Offers the delivering path `path` as the found path, keeping the better one.
fn offer_candidate(
    o: &ShipmentOrder,
    rs: &[LogisticsRoute],
    max_legs: usize,
    path: &Vec<usize>,
    cost: i64,
    days: u32,
    best: &mut Option<BestPath>,
)
    requires
        is_candidate(*o, rs@, max_legs as int, positions(path@)),
        cost as int == path_cost(*o, rs@, positions(path@)),
        days as int == path_days(rs@, positions(path@)),
        *old(best) matches Some(b) ==> best_path_wf(*o, rs@, max_legs as int, b),
    ensures
        (*final(best) matches Some(b) && best_path_wf(*o, rs@, max_legs as int, b)),
        improves(*o, rs@, *old(best), *final(best)),
        *final(best) matches Some(b) && !path_before(
            *o,
            rs@,
            positions(path@),
            ints(b.legs@),
        ),
{
    let ghost p = positions(path@);
    proof {
        lemma_explored_in_range(*o, rs@, max_legs as int, p);
    }
    let mut legs: Vec<u64> = Vec::new();
    let mut ids: Vec<u64> = Vec::new();
    let mut i: usize = 0;
    while i < path.len()
        invariant
            p == positions(path@),
            forall|t: int| 0 <= t < p.len() ==> 0 <= #[trigger] p[t] < rs@.len(),
            i <= path.len(),
            legs@.len() == i,
            ids@.len() == i,
            ints(legs@) == p.take(i as int),
            ints(ids@) == path_ids(rs@, p).take(i as int),
        decreases path.len() - i,
    {
        assert(0 <= p[i as int] < rs@.len());
        assert(p[i as int] == path@[i as int] as int);
        let ghost (prev_legs, prev_ids) = (legs@, ids@);
        let leg = path[i];
        let id = rs[leg].id();
        legs.push(leg as u64);
        ids.push(id.get() as u64);
        proof {
            assert(ints(legs@)[i as int] == leg as int);
            assert(p[i as int] == leg as int);
            assert(ints(ids@)[i as int] == id@ as int);
            assert(path_ids(rs@, p)[i as int] == rs@[p[i as int]].spec_id()@ as int);
            assert forall|j: int| 0 <= j < i + 1 implies #[trigger] ints(legs@)[j] == p.take(i + 1)[j]
                && ints(ids@)[j] == path_ids(rs@, p).take(i + 1)[j] by {
                if j < i {
                    assert(ints(prev_legs)[j] == p.take(i as int)[j]);
                    assert(ints(prev_ids)[j] == path_ids(rs@, p).take(i as int)[j]);
                }
            }
            assert(ints(legs@) =~= p.take(i + 1));
            assert(ints(ids@) =~= path_ids(rs@, p).take(i + 1));
        }
        i = i + 1;
    }
    proof {
        assert(p.take(p.len() as int) =~= p);
        assert(path_ids(rs@, p).take(p.len() as int) =~= path_ids(rs@, p));
    }
    let found = BestPath { legs, ids, cost, days };
    let take = match best {
        None => true,
        Some(b) => {
            if cost != b.cost {
                cost < b.cost
            } else if lex_less(&found.ids, &b.ids) {
                true
            } else if lex_less(&b.ids, &found.ids) {
                false
            } else {
                proof {
                    if ints(found.ids@) != ints(b.ids@) {
                        lemma_lex_lt_total(ints(found.ids@), ints(b.ids@));
                    }
                }
                lex_less(&found.legs, &b.legs)
            }
        },
    };
    if take {
        *best = Some(found);
    } else {
        proof {
            lemma_lex_lt_irreflexive(p);
        }
    }
    proof {
        lemma_lex_lt_irreflexive(p);
        lemma_lex_lt_irreflexive(path_ids(rs@, p));
    }
}

/// Walks every path that extends `path` (depth first) and offers each delivering one;
/// fails when a leg's freight would not fit in `i64`.
fn search_paths(
    o: &ShipmentOrder,
    rs: &[LogisticsRoute],
    max_legs: usize,
    path: &mut Vec<usize>,
    cost: i64,
    days: u32,
    best: &mut Option<BestPath>,
) -> (r: Result<(), WorldError>)
    requires
        explored(*o, rs@, max_legs as int, positions(old(path)@)),
        cost as int == path_cost(*o, rs@, positions(old(path)@)),
        cost >= 0,
        days as int == path_days(rs@, positions(old(path)@)),
        days_fit(*o, rs@, max_legs as int),
        *old(best) matches Some(b) ==> best_path_wf(*o, rs@, max_legs as int, b),
    ensures
        final(path)@ == old(path)@,
        *final(best) matches Some(b) ==> best_path_wf(*o, rs@, max_legs as int, b),
        improves(*o, rs@, *old(best), *final(best)),
        r is Ok ==> forall|q: Seq<int>|
            is_prefix(positions(old(path)@), q) && #[trigger] is_candidate(
                *o,
                rs@,
                max_legs as int,
                q,
            ) ==> (*final(best) matches Some(b) && !path_before(*o, rs@, q, ints(b.legs@))),
        r is Ok ==> forall|q: Seq<int>, k: int|
            is_prefix(positions(old(path)@), q) ==> !#[trigger] overflows_at(
                *o,
                rs@,
                max_legs as int,
                q,
                k,
            ),
        r is Err ==> exists|q: Seq<int>, k: int|
            is_prefix(positions(old(path)@), q) && #[trigger] overflows_at(
                *o,
                rs@,
                max_legs as int,
                q,
                k,
            ),
        r is Err ==> r == Err::<(), WorldError>(WorldError::ArithmeticOverflow("multi-leg shipment cost"))
            || r == Err::<(), WorldError>(WorldError::ArithmeticOverflow("multi-leg shipment total")),
    decreases max_legs - old(path)@.len(),
{
    let ghost p = positions(path@);
    let ghost rsv = rs@;
    let ghost m = max_legs as int;
    proof {
        lemma_explored_in_range(*o, rsv, m, p);
    }
    let end = if path.len() == 0 {
        o.origin
    } else {
        rs[path[path.len() - 1]].destination()
    };
    assert(end == path_end(*o, rsv, p));
    if end == o.destination || path.len() >= max_legs {
        if end == o.destination && cost <= o.max_total_cost.minor_units() {
            offer_candidate(o, rs, max_legs, path, cost, days, best);
        }
        proof {
            assert forall|q: Seq<int>|
                is_prefix(p, q) && #[trigger] is_candidate(*o, rsv, m, q) implies best.is_some()
                && !path_before(*o, rsv, q, ints(best->0.legs@)) by {
                if q.len() > p.len() {
                    lemma_extension_step(*o, rsv, m, p, q);
                } else {
                    assert(q =~= p);
                }
            }
            assert forall|q: Seq<int>, k: int| is_prefix(p, q) implies !#[trigger] overflows_at(
                *o,
                rsv,
                m,
                q,
                k,
            ) by {
                if q.len() > p.len() && overflows_at(*o, rsv, m, q, k) {
                    lemma_extension_step(*o, rsv, m, p, q);
                } else if overflows_at(*o, rsv, m, q, k) {
                    assert(q =~= p);
                }
            }
        }
        return Ok(());
    }
    assert(!is_candidate(*o, rsv, m, p));
    let ghost start = *best;
    proof {
        assert forall|t: int| 0 <= t < path@.len() implies #[trigger] path@[t] < rs@.len() by {
            assert(p[t] == path@[t] as int);
        }
        assert forall|q: Seq<int>| #[trigger] is_candidate(*o, rsv, m, q) && is_prefix(p, q)
            && q.len() > p.len() implies q[p.len() as int] >= 0 by {
            lemma_explored_in_range(*o, rsv, m, q);
        }
        assert forall|q: Seq<int>, j: int| is_prefix(p, q) && #[trigger] overflows_at(
            *o,
            rsv,
            m,
            q,
            j,
        ) implies (if q.len() == p.len() {
            j >= 0
        } else {
            q[p.len() as int] >= 0
        }) by {
            lemma_explored_in_range(*o, rsv, m, q);
        }
    }
    let mut k: usize = 0;
    while k < rs.len()
        invariant
            p == positions(path@),
            path@ == old(path)@,
            start == *old(best),
            forall|t: int| 0 <= t < path@.len() ==> #[trigger] path@[t] < rs@.len(),
            rsv == rs@,
            m == max_legs as int,
            explored(*o, rsv, m, p),
            forall|t: int| 0 <= t < p.len() ==> 0 <= #[trigger] p[t] < rsv.len(),
            cost as int == path_cost(*o, rsv, p),
            cost >= 0,
            days as int == path_days(rsv, p),
            days_fit(*o, rsv, m),
            end == path_end(*o, rsv, p),
            end != o.destination,
            p.len() < m,
            k <= rs.len(),
            *best matches Some(b) ==> best_path_wf(*o, rsv, m, b),
            improves(*o, rsv, start, *best),
            forall|q: Seq<int>|
                is_prefix(p, q) && q.len() > p.len() && q[p.len() as int] < k
                    && #[trigger] is_candidate(*o, rsv, m, q) ==> (*best matches Some(b)
                    && !path_before(*o, rsv, q, ints(b.legs@))),
            forall|q: Seq<int>, j: int|
                is_prefix(p, q) && #[trigger] overflows_at(*o, rsv, m, q, j) ==> if q.len()
                    == p.len() {
                    j >= k
                } else {
                    q[p.len() as int] >= k
                },
        decreases rs.len() - k,
    {
        let ghost kk = k as int;
        let ghost child = p.push(kk);
        let route = &rs[k];
        let ghost before_best = *best;
        if route.origin() == end && route.capacity().get() >= o.quantity.get() && !path_passes(
            o,
            rs,
            path,
            route.destination(),
        ) {
            assert(can_extend(*o, rsv, m, p, kk));
            let cost_per_unit = route.cost_per_unit();
            let leg = match checked_leg_cost(cost_per_unit, o.quantity) {
                Some(leg) => leg,
                None => {
                    assert(overflows_at(*o, rsv, m, p, kk));
                    assert(is_prefix(p, p)) by {
                        assert(p.take(p.len() as int) =~= p);
                    }
                    return Err(WorldError::ArithmeticOverflow("multi-leg shipment cost"));
                },
            };
            let next = match cost.checked_add(leg) {
                Some(next) => next,
                None => {
                    assert(overflows_at(*o, rsv, m, p, kk));
                    assert(is_prefix(p, p)) by {
                        assert(p.take(p.len() as int) =~= p);
                    }
                    return Err(WorldError::ArithmeticOverflow("multi-leg shipment total"));
                },
            };
            if next <= o.max_total_cost.minor_units() {
                assert(child.drop_last() =~= p);
                assert(explored(*o, rsv, m, child));
                assert(path_days(rsv, child) <= u32::MAX);
                let transit = route.transit_days();
                path.push(k);
                assert(positions(path@) =~= child);
                let outcome = search_paths(o, rs, max_legs, path, next, days + transit as u32, best);
                path.pop();
                assert(positions(path@) =~= p);
                match outcome {
                    Err(e) => {
                        proof {
                            let (q, j) = choose|q: Seq<int>, j: int|
                                is_prefix(child, q) && #[trigger] overflows_at(*o, rsv, m, q, j);
                            assert(q.take(p.len() as int) =~= p) by {
                                assert(q.take(child.len() as int).take(p.len() as int)
                                    =~= q.take(p.len() as int));
                            }
                            assert(is_prefix(p, q) && overflows_at(*o, rsv, m, q, j));
                            lemma_improves_transitive(*o, rsv, start, before_best, *best);
                        }
                        return Err(e);
                    },
                    Ok(()) => {},
                }
                proof {
                    lemma_improves_transitive(*o, rsv, start, before_best, *best);
                    assert forall|q: Seq<int>|
                        is_prefix(p, q) && q.len() > p.len() && q[p.len() as int] < k + 1
                            && #[trigger] is_candidate(*o, rsv, m, q) implies best.is_some()
                        && !path_before(*o, rsv, q, ints(best->0.legs@)) by {
                        if q[p.len() as int] == kk {
                            assert(q.take(child.len() as int) =~= child);
                        } else {
                            lemma_still_not_before(*o, rsv, q, before_best->0, *best);
                        }
                    }
                    assert forall|q: Seq<int>, j: int|
                        is_prefix(p, q) && #[trigger] overflows_at(*o, rsv, m, q, j) implies if q.len()
                        == p.len() {
                        j >= k + 1
                    } else {
                        q[p.len() as int] >= k + 1
                    } by {
                        if q.len() > p.len() && q[p.len() as int] == kk {
                            assert(q.take(child.len() as int) =~= child);
                        }
                        if q.len() == p.len() {
                            assert(q =~= p);
                        }
                    }
                }
            } else {
                proof {
                    assert forall|q: Seq<int>|
                        is_prefix(p, q) && q.len() > p.len() && q[p.len() as int] == kk implies !explored(
                        *o,
                        rsv,
                        m,
                        q,
                    ) by {
                        if explored(*o, rsv, m, q) {
                            lemma_extension_step(*o, rsv, m, p, q);
                            assert(child.drop_last() =~= p);
                        }
                    }
                    assert forall|q: Seq<int>, j: int|
                        is_prefix(p, q) && #[trigger] overflows_at(*o, rsv, m, q, j) implies if q.len()
                        == p.len() {
                        j >= k + 1
                    } else {
                        q[p.len() as int] >= k + 1
                    } by {
                        if q.len() == p.len() {
                            assert(q =~= p);
                        }
                    }
                }
            }
        } else {
            proof {
                assert(!can_extend(*o, rsv, m, p, kk));
                assert forall|q: Seq<int>|
                    is_prefix(p, q) && q.len() > p.len() && q[p.len() as int] == kk implies !explored(
                    *o,
                    rsv,
                    m,
                    q,
                ) by {
                    if explored(*o, rsv, m, q) {
                        lemma_extension_step(*o, rsv, m, p, q);
                    }
                }
                assert forall|q: Seq<int>, j: int|
                    is_prefix(p, q) && #[trigger] overflows_at(*o, rsv, m, q, j) implies if q.len()
                    == p.len() {
                    j >= k + 1
                } else {
                    q[p.len() as int] >= k + 1
                } by {
                    if q.len() == p.len() {
                        assert(q =~= p);
                    }
                }
            }
        }
        k = k + 1;
    }
    proof {
        assert forall|q: Seq<int>|
            is_prefix(p, q) && #[trigger] is_candidate(*o, rsv, m, q) implies best.is_some()
            && !path_before(*o, rsv, q, ints(best->0.legs@)) by {
            if q.len() > p.len() {
                lemma_explored_in_range(*o, rsv, m, q);
            } else {
                assert(q =~= p);
            }
        }
        assert forall|q: Seq<int>, j: int| is_prefix(p, q) implies !#[trigger] overflows_at(
            *o,
            rsv,
            m,
            q,
            j,
        ) by {
            if q.len() > p.len() && overflows_at(*o, rsv, m, q, j) {
                lemma_explored_in_range(*o, rsv, m, q);
            }
        }
    }
    Ok(())
}

/// Plans the cheapest shipment from the order's origin to its destination over at most
/// `max_legs` routes, never entering a region twice; equal freight prefers the smaller
/// route ids in order, then the earlier positions in `routes`. Fails when no path
/// delivers within capacity and budget, or when the freight of some leg the search
/// considers does not fit in `i64`.
pub fn plan_multileg_shipment(order: &ShipmentOrder, routes: &[LogisticsRoute], max_legs: usize) -> (r:
    Result<MultiLegShipmentPlan, WorldError>)
    requires
        days_fit(*order, routes@, max_legs as int),
    ensures
        max_legs == 0 ==> r == Err::<MultiLegShipmentPlan, WorldError>(
            WorldError::NoFeasibleLogisticsRoute(order.id),
        ),
        max_legs > 0 && (exists|q: Seq<int>, k: int|
            #[trigger] overflows_at(*order, routes@, max_legs as int, q, k)) ==> (r
            == Err::<MultiLegShipmentPlan, WorldError>(
            WorldError::ArithmeticOverflow("multi-leg shipment cost"),
        ) || r == Err::<MultiLegShipmentPlan, WorldError>(
            WorldError::ArithmeticOverflow("multi-leg shipment total"),
        )),
        max_legs > 0 && !(exists|q: Seq<int>, k: int|
            #[trigger] overflows_at(*order, routes@, max_legs as int, q, k)) && (forall|q: Seq<int>|
            !#[trigger] is_candidate(*order, routes@, max_legs as int, q)) ==> r == Err::<
            MultiLegShipmentPlan,
            WorldError,
        >(WorldError::NoFeasibleLogisticsRoute(order.id)),
        max_legs > 0 && !(exists|q: Seq<int>, k: int|
            #[trigger] overflows_at(*order, routes@, max_legs as int, q, k)) && (exists|q: Seq<int>|
            #[trigger] is_candidate(*order, routes@, max_legs as int, q)) ==> r is Ok && exists|p: Seq<
            int,
        >|
            is_best_path(*order, routes@, max_legs as int, p) && #[trigger] plan_follows(
                *order,
                routes@,
                p,
                r->Ok_0,
            ),
{
    if max_legs == 0 {
        return Err(WorldError::NoFeasibleLogisticsRoute(order.id));
    }
    let ghost (rsv, m) = (routes@, max_legs as int);
    let mut path: Vec<usize> = Vec::new();
    let mut best: Option<BestPath> = None;
    proof {
        assert(positions(path@) =~= Seq::<int>::empty());
        assert forall|q: Seq<int>| is_prefix(Seq::<int>::empty(), q) by {
            assert(q.take(0) =~= Seq::<int>::empty());
        }
    }
    let searched = search_paths(order, routes, max_legs, &mut path, 0, 0, &mut best);
    if let Err(e) = searched {
        proof {
            let (q, k) = choose|q: Seq<int>, k: int|
                is_prefix(positions(path@), q) && #[trigger] overflows_at(*order, rsv, m, q, k);
            assert(overflows_at(*order, routes@, max_legs as int, q, k));
        }
        return Err(e);
    }
    match best {
        None => {
            proof {
                if exists|q: Seq<int>| #[trigger] is_candidate(*order, rsv, m, q) {
                    let q = choose|q: Seq<int>| #[trigger] is_candidate(*order, rsv, m, q);
                    assert(q.take(0) =~= Seq::<int>::empty());
                    assert(is_prefix(Seq::<int>::empty(), q));
                }
            }
            Err(WorldError::NoFeasibleLogisticsRoute(order.id))
        },
        Some(found) => {
            let ghost fp = ints(found.legs@);
            proof {
                lemma_explored_in_range(*order, rsv, m, fp);
            }
            let mut ids: Vec<RouteId> = Vec::new();
            let mut i: usize = 0;
            while i < found.legs.len()
                invariant
                    fp == ints(found.legs@),
                    rsv == routes@,
                    forall|t: int| 0 <= t < fp.len() ==> 0 <= #[trigger] fp[t] < rsv.len(),
                    i <= found.legs@.len(),
                    ids@ == fp.take(i as int).map_values(|k: int| rsv[k].spec_id()),
                decreases found.legs.len() - i,
            {
                assert(0 <= fp[i as int] < rsv.len());
                let leg = found.legs[i] as usize;
                let id = routes[leg].id();
                ids.push(id);
                proof {
                    assert(ids@ =~= fp.take(i + 1).map_values(|k: int| rsv[k].spec_id()));
                }
                i = i + 1;
            }
            proof {
                assert(fp.take(fp.len() as int) =~= fp);
            }
            let plan = MultiLegShipmentPlan {
                shipment: order.id,
                routes: ids,
                total_cost: Money::from_minor_units(found.cost),
                arrival_days: found.days,
            };
            proof {
                assert(plan_follows(*order, rsv, fp, plan));
                assert(is_best_path(*order, rsv, m, fp));
            }
            let res: Result<MultiLegShipmentPlan, WorldError> = Ok(plan);
            assert(plan_follows(*order, routes@, fp, res->Ok_0));
            assert(exists|p: Seq<int>|
            is_best_path(*order, routes@, max_legs as int, p) && #[trigger] plan_follows(
                *order,
                routes@,
                p,
                res->Ok_0,
            ));
            res
        },
    }
}

} // verus!
