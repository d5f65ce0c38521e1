use vstd::prelude::*;
use std::collections::BTreeMap;

use crate::apportion::{
    apportioned, comes_before, count_upto, lemma_apportioned_sum, lemma_nonneg_sum_facts, lemma_sum_affine,
    lemma_sum_bounds,
    remainder_rank, seq_sum,
};
use crate::event::{DomainEvent, EventEnvelope};
use crate::ids::{ActorId, CountryId, PowerNodeId, RegionId};
use crate::ordered::{key_order, keys_in_order, pair_key_order, pair_keys_in_order};
use crate::political_economy::RegionalSocialPressure;
use crate::regional_interests::{RegionalInterest, RegionalPolicyPriority};
use crate::value::BasisPoints;
use crate::world::{is_office_holder, PowerNodeKind, World, WorldError, WorldView};

verus! {

broadcast use vstd::std_specs::btree::group_btree_axioms;

/// The shares of a map in key order.
pub open spec fn share_seq(m: Map<u32, BasisPoints>) -> Seq<int> {
    Seq::new(key_order(m).len(), |i: int| m[key_order(m)[i]]@ as int)
}

/// `budget * share`, saturated at `i128::MAX`.
pub open spec fn scaled_budget(budget: int, share: int) -> int {
    if budget * share > i128::MAX {
        i128::MAX as int
    } else {
        budget * share
    }
}

/// Whole units of each row of a budget split by basis-point shares.
pub open spec fn budget_floors(budget: int, shares: Seq<int>) -> Seq<int> {
    Seq::new(shares.len(), |i: int| scaled_budget(budget, shares[i]) / 10_000)
}

/// The fractional part (in ten-thousandths) left over by each row.
pub open spec fn budget_rems(budget: int, shares: Seq<int>) -> Seq<int> {
    Seq::new(shares.len(), |i: int| scaled_budget(budget, shares[i]) % 10_000)
}

/// The units left after every row took its floor: what the rows with the largest
/// remainders share one by one. A difference that is negative or beyond `usize` hands out none.
pub open spec fn budget_extra(budget: int, shares: Seq<int>) -> int {
    let floor_total = seq_sum(budget_floors(budget, shares));
    let assigned = if floor_total > i128::MAX {
        i128::MAX as int
    } else {
        floor_total
    };
    let d = budget - assigned;
    if 0 <= d <= usize::MAX {
        d
    } else {
        0
    }
}

/// The integer amounts of a budget split by shares, by the largest-remainder rule
/// (ties between equal remainders go to the smaller key).
pub open spec fn budget_amounts(budget: int, shares: Seq<int>) -> Seq<int> {
    apportioned(
        budget_floors(budget, shares),
        budget_rems(budget, shares),
        budget_extra(budget, shares),
    )
}

/// Whether `r` holds, under each key of `shares`, the amount that the largest-remainder
/// split of `budget` gives that key.
pub open spec fn is_budget_split(
    budget: int,
    shares: Map<u32, BasisPoints>,
    r: Map<u32, i128>,
) -> bool {
    &&& r.dom() == shares.dom()
    &&& forall|i: int|
        0 <= i < key_order(shares).len() ==> r[#[trigger] key_order(shares)[i]] as int
            == budget_amounts(budget, share_seq(shares))[i]
}

/// A budget split by shares that sum to exactly 10,000 basis points is conserved
/// exactly: the amounts add up to the budget, with no unit lost or invented.
pub proof fn lemma_budget_is_conserved(budget: int, shares: Seq<int>)
    requires
        0 <= budget,
        budget * 10_000 <= i128::MAX,
        forall|i: int| 0 <= i < shares.len() ==> 0 <= #[trigger] shares[i] <= 10_000,
        seq_sum(shares) == 10_000,
        shares.len() <= usize::MAX,
    ensures
        seq_sum(budget_amounts(budget, shares)) == budget,
{
    let n = shares.len() as int;
    let floors = budget_floors(budget, shares);
    let rems = budget_rems(budget, shares);
    let scaled = Seq::new(shares.len(), |i: int| budget * shares[i]);
    assert forall|i: int| 0 <= i < n implies scaled_budget(budget, shares[i]) == budget
        * shares[i] by {
        let s = shares[i];
        assert(budget * s <= budget * 10_000) by (nonlinear_arith)
            requires
                0 <= budget,
                s <= 10_000,
        ;
    }
    lemma_sum_affine(shares, Seq::new(shares.len(), |i: int| 0int), scaled, budget);
    assert(seq_sum(Seq::new(shares.len(), |i: int| 0int)) == 0) by {
        lemma_sum_bounds(Seq::new(shares.len(), |i: int| 0int), 0, 0);
    }
    lemma_sum_affine(floors, rems, scaled, 10_000);
    lemma_sum_bounds(rems, 0, 9_999);
    if n == 0 {
        assert(shares =~= Seq::<int>::empty());
    }
    let sf = seq_sum(floors);
    let sr = seq_sum(rems);
    assert(10_000 * sf + sr == 10_000 * budget);
    assert(budget - sf < n) by (nonlinear_arith)
        requires
            10_000 * sf + sr == 10_000 * budget,
            sr <= n * 9_999,
            n >= 1,
    ;
    assert(budget - sf >= 0) by (nonlinear_arith)
        requires
            10_000 * sf + sr == 10_000 * budget,
            sr >= 0,
    ;
    lemma_apportioned_sum(floors, rems, budget - sf);
}

/// How many rows, among all of them, come before row `i` in largest-remainder order.
pub(crate) fn rank_of(rems: &Vec<u128>, i: usize) -> (r: usize)
    requires
        i < rems.len(),
    ensures
        r as int == remainder_rank(rems@.map_values(|x: u128| x as int), i as int),
{
    let ghost rs = rems@.map_values(|x: u128| x as int);
    let ghost p = |j: int| comes_before(rs, j, i as int);
    let mut count: usize = 0;
    let mut j: usize = 0;
    while j < rems.len()
        invariant
            j <= rems.len(),
            i < rems.len(),
            rs == rems@.map_values(|x: u128| x as int),
            p == (|j: int| comes_before(rs, j, i as int)),
            count as int == count_upto(p, j as int),
            count <= j,
        decreases rems.len() - j,
    {
        if rems[j] > rems[i] || (rems[j] == rems[i] && j < i) {
            count = count + 1;
        }
        j = j + 1;
    }
    count
}

/// Splits a non-negative integer budget among regions by basis-point shares. Each region
/// gets the whole part of its share; the units left over go one each to the regions
/// with the largest fractional parts, ties to the smaller region id.
pub fn allocate_integer_budget(budget: i128, shares: &BTreeMap<u32, BasisPoints>) -> (r: BTreeMap<
    u32,
    i128,
>)
    requires
        budget >= 0,
    ensures
        is_budget_split(budget as int, shares@, r@),
{
    let keys = keys_in_order(shares);
    let ghost ks = key_order(shares@);
    let ghost shs = share_seq(shares@);
    let mut floors: Vec<i128> = Vec::new();
    let mut rems: Vec<u128> = Vec::new();
    let mut assigned: i128 = 0;
    let ghost mut floor_total: int = 0;
    let mut i: usize = 0;
    while i < keys.len()
        invariant
            keys@ == ks,
            ks == key_order(shares@),
            shs == share_seq(shares@),
            forall|k: int| 0 <= k < keys@.len() ==> shares@.contains_key(#[trigger] keys@[k]),
            budget >= 0,
            i <= keys.len(),
            floors.len() == i,
            rems.len() == i,
            forall|k: int|
                0 <= k < i ==> floors@[k] as int == #[trigger] budget_floors(budget as int, shs)[k],
            forall|k: int|
                0 <= k < i ==> rems@[k] as int == #[trigger] budget_rems(budget as int, shs)[k],
            forall|k: int| 0 <= k < i ==> floors@[k] <= i128::MAX / 10_000,
            floor_total == seq_sum(budget_floors(budget as int, shs).take(i as int)),
            floor_total >= 0,
            assigned as int == if floor_total > i128::MAX {
                i128::MAX as int
            } else {
                floor_total
            },
        decreases keys.len() - i,
    {
        let key = keys[i];
        let share = *shares.get(&key).unwrap();
        let s: i128 = share.get() as i128;
        let scaled: i128 = match budget.checked_mul(s) {
            Some(v) => v,
            None => i128::MAX,
        };
        assert(scaled as int == scaled_budget(budget as int, shs[i as int]));
        let floor: i128 = scaled / 10_000;
        let rem: i128 = scaled % 10_000;
        proof {
            let fs = budget_floors(budget as int, shs);
            assert(fs.take(i as int + 1).drop_last() =~= fs.take(i as int));
            floor_total = floor_total + floor;
        }
        assigned = match assigned.checked_add(floor) {
            Some(v) => v,
            None => i128::MAX,
        };
        floors.push(floor);
        rems.push(rem as u128);
        i = i + 1;
    }
    proof {
        assert(budget_floors(budget as int, shs).take(keys@.len() as int) =~= budget_floors(
            budget as int,
            shs,
        ));
    }
    let d: i128 = budget - assigned;
    let extra: usize = if 0 <= d && d <= usize::MAX as i128 {
        d as usize
    } else {
        0
    };
    let ghost rs = rems@.map_values(|x: u128| x as int);
    proof {
        assert(rs =~= budget_rems(budget as int, shs));
    }
    let mut out: BTreeMap<u32, i128> = BTreeMap::new();
    let mut j: usize = 0;
    while j < keys.len()
        invariant
            keys@ == ks,
            ks == key_order(shares@),
            shs == share_seq(shares@),
            keys.len() == floors.len(),
            keys.len() == rems.len(),
            rs == rems@.map_values(|x: u128| x as int),
            rs == budget_rems(budget as int, shs),
            extra as int == budget_extra(budget as int, shs),
            forall|k: int|
                0 <= k < keys.len() ==> floors@[k] as int == #[trigger] budget_floors(
                    budget as int,
                    shs,
                )[k],
            forall|k: int| 0 <= k < keys.len() ==> floors@[k] <= i128::MAX / 10_000,
            j <= keys.len(),
            forall|x: u32|
                out@.contains_key(x) <==> exists|k: int| 0 <= k < j && #[trigger] keys@[k] == x,
            forall|k: int|
                0 <= k < j ==> out@[#[trigger] keys@[k]] as int == budget_amounts(
                    budget as int,
                    shs,
                )[k],
            crate::ordered::strictly_increasing(keys@),
        decreases keys.len() - j,
    {
        let rank = rank_of(&rems, j);
        let amount: i128 = if rank < extra {
            floors[j] + 1
        } else {
            floors[j]
        };
        let ghost before = out@;
        out.insert(keys[j], amount);
        proof {
            assert forall|x: u32|
                out@.contains_key(x) <==> exists|k: int| 0 <= k < j + 1 && #[trigger] keys@[k] == x by {
                if x == keys@[j as int] {
                    assert(0 <= j < j + 1 && keys@[j as int] == x);
                }
            }
            assert forall|k: int| 0 <= k < j + 1 implies out@[#[trigger] keys@[k]] as int
                == budget_amounts(budget as int, shs)[k] by {
                if k < j {
                    assert(keys@[k] < keys@[j as int]);
                }
            }
        }
        j = j + 1;
    }
    proof {
        assert forall|x: u32| out@.contains_key(x) <==> shares@.contains_key(x) by {
            if shares@.contains_key(x) {
                assert(keys@.to_set().contains(x));
                let k = choose|k: int| 0 <= k < keys@.len() && keys@[k] == x;
            }
        }
        assert(out@.dom() =~= shares@.dom());
    }
    out
}

/// The weights of a map in key order.
pub open spec fn weight_seq(m: Map<u32, u128>) -> Seq<int> {
    Seq::new(key_order(m).len(), |i: int| m[key_order(m)[i]] as int)
}

/// `weight * 10_000`, saturated at `u128::MAX`.
pub open spec fn scaled_weight(weight: int) -> int {
    if weight * 10_000 > u128::MAX {
        u128::MAX as int
    } else {
        weight * 10_000
    }
}

/// The divisor of the normalisation: the total weight, or 1 when it is zero.
pub open spec fn weight_denominator(weights: Seq<int>) -> int {
    if seq_sum(weights) > 1 {
        seq_sum(weights)
    } else {
        1
    }
}

/// Whole basis points of each weight's share of the total.
pub open spec fn weight_floors(weights: Seq<int>) -> Seq<int> {
    Seq::new(
        weights.len(),
        |i: int|
            {
                let q = scaled_weight(weights[i]) / weight_denominator(weights);
                if q <= u16::MAX {
                    q
                } else {
                    10_000
                }
            },
    )
}

/// The remainder each weight leaves after its whole basis points.
pub open spec fn weight_rems(weights: Seq<int>) -> Seq<int> {
    Seq::new(
        weights.len(),
        |i: int| scaled_weight(weights[i]) % weight_denominator(weights),
    )
}

/// The basis points left after every row took its floor (counting at most `u16::MAX` assigned).
pub open spec fn weight_extra(weights: Seq<int>) -> int {
    let total = seq_sum(weight_floors(weights));
    let assigned = if total > u16::MAX {
        u16::MAX as int
    } else {
        total
    };
    if assigned >= 10_000 {
        0
    } else {
        10_000 - assigned
    }
}

/// The basis-point shares of weights, by the largest-remainder rule (ties to the smaller key).
pub open spec fn normalized_shares(weights: Seq<int>) -> Seq<int> {
    apportioned(weight_floors(weights), weight_rems(weights), weight_extra(weights))
}

/// Whether `r` holds, under each key of `weights`, its normalised basis-point share.
pub open spec fn is_normalization(weights: Map<u32, u128>, r: Map<u32, BasisPoints>) -> bool {
    &&& r.dom() == weights.dom()
    &&& forall|i: int|
        0 <= i < key_order(weights).len() ==> r[#[trigger] key_order(weights)[i]]@ as int
            == normalized_shares(weight_seq(weights))[i]
}

/// Each whole share of a weight is at most 10,000 basis points.
proof fn lemma_weight_floor_bounded(ws: Seq<int>, i: int)
    requires
        0 <= i < ws.len(),
        forall|k: int| 0 <= k < ws.len() ==> 0 <= #[trigger] ws[k],
    ensures
        0 <= weight_floors(ws)[i] <= 10_000,
{
    lemma_nonneg_sum_facts(ws);
    let w = ws[i];
    let total = seq_sum(ws);
    let d = weight_denominator(ws);
    let sc = scaled_weight(w);
    assert(w <= total);
    if w * 10_000 > u128::MAX {
        assert(sc / d <= 10_000) by (nonlinear_arith)
            requires
                sc == u128::MAX,
                w * 10_000 > u128::MAX,
                w <= d,
                d >= 1,
        ;
    } else {
        assert(sc / d <= 10_000) by (nonlinear_arith)
            requires
                sc == w * 10_000,
                0 <= w,
                w <= d,
                d >= 1,
        ;
    }
    assert(sc / d >= 0) by (nonlinear_arith)
        requires
            sc >= 0,
            d >= 1,
    ;
}

/// Normalised shares of weights with a positive total sum to exactly 10,000 basis
/// points (when `total * 10_000` fits in `u128`).
pub proof fn lemma_normalized_shares_sum_to_full(weights: Seq<int>)
    requires
        forall|i: int| 0 <= i < weights.len() ==> 0 <= #[trigger] weights[i],
        seq_sum(weights) > 0,
        seq_sum(weights) * 10_000 <= u128::MAX,
        weights.len() <= usize::MAX,
    ensures
        seq_sum(normalized_shares(weights)) == 10_000,
{
    let n = weights.len() as int;
    let total = seq_sum(weights);
    lemma_nonneg_sum_facts(weights);
    let floors = weight_floors(weights);
    let rems = weight_rems(weights);
    let scaled = Seq::new(weights.len(), |i: int| 10_000 * weights[i]);
    let zeros = Seq::new(weights.len(), |i: int| 0int);
    lemma_sum_bounds(zeros, 0, 0);
    lemma_sum_affine(weights, zeros, scaled, 10_000);
    assert forall|i: int| 0 <= i < n implies scaled[i] == total * floors[i] + rems[i] && 0
        <= rems[i] < total by {
        let w = weights[i];
        assert(w * 10_000 <= total * 10_000) by (nonlinear_arith)
            requires
                0 <= w <= total,
        ;
        assert(scaled_weight(w) == 10_000 * w);
        let d = weight_denominator(weights);
        if total == 1 {
            assert(d == 1);
        }
        assert(d == total);
        vstd::arithmetic::div_mod::lemma_fundamental_div_mod(10_000 * w, d);
        vstd::arithmetic::div_mod::lemma_mod_bound(10_000 * w, d);
        lemma_weight_floor_bounded(weights, i);
        let q = (10_000 * w) / d;
        assert(q <= 10_000) by (nonlinear_arith)
            requires
                q == (10_000 * w) / d,
                0 <= w <= d,
                d >= 1,
        ;
        assert(floors[i] == q);
    }
    assert forall|i: int| 0 <= i < n implies 0 <= #[trigger] rems[i] <= total - 1 by {}
    lemma_sum_affine(floors, rems, scaled, total);
    lemma_sum_bounds(rems, 0, total - 1);
    if n == 0 {
        assert(weights =~= Seq::<int>::empty());
    }
    let sf = seq_sum(floors);
    let sr = seq_sum(rems);
    assert(total * sf + sr == 10_000 * total);
    assert(sf <= 10_000 && 10_000 - sf < n) by (nonlinear_arith)
        requires
            total * sf + sr == 10_000 * total,
            0 <= sr <= n * (total - 1),
            total >= 1,
            n >= 1,
    ;
    assert forall|i: int| 0 <= i < n implies 0 <= #[trigger] floors[i] by {
        lemma_weight_floor_bounded(weights, i);
    }
    lemma_nonneg_sum_facts(floors);
    lemma_apportioned_sum(floors, rems, 10_000 - sf);
}

/// Turns weights into basis-point shares that sum to 10,000 (largest remainder; an empty
/// map gives an empty map).
pub fn normalize_weights(weights: &BTreeMap<u32, u128>) -> (r: BTreeMap<u32, BasisPoints>)
    requires
        seq_sum(weight_seq(weights@)) <= u128::MAX,
    ensures
        is_normalization(weights@, r@),
{
    let keys = keys_in_order(weights);
    let ghost ks = key_order(weights@);
    let ghost ws = weight_seq(weights@);
    proof {
        lemma_nonneg_sum_facts(ws);
    }
    let mut total: u128 = 0;
    let mut i: usize = 0;
    while i < keys.len()
        invariant
            keys@ == ks,
            ks == key_order(weights@),
            ws == weight_seq(weights@),
            forall|k: int| 0 <= k < keys@.len() ==> weights@.contains_key(#[trigger] keys@[k]),
            i <= keys.len(),
            total as int == seq_sum(ws.take(i as int)),
            forall|m: int| 0 <= m <= ws.len() ==> #[trigger] seq_sum(ws.take(m)) <= u128::MAX,
        decreases keys.len() - i,
    {
        let w = *weights.get(&keys[i]).unwrap();
        proof {
            assert(ws.take(i as int + 1).drop_last() =~= ws.take(i as int));
            assert(seq_sum(ws.take(i as int + 1)) <= u128::MAX);
        }
        total = total + w;
        i = i + 1;
    }
    proof {
        assert(ws.take(keys@.len() as int) =~= ws);
    }
    let denominator: u128 = if total > 1 {
        total
    } else {
        1
    };
    let mut floors: Vec<u16> = Vec::new();
    let mut rems: Vec<u128> = Vec::new();
    let mut assigned: u16 = 0;
    let ghost mut floor_total: int = 0;
    let mut i: usize = 0;
    while i < keys.len()
        invariant
            keys@ == ks,
            ks == key_order(weights@),
            ws == weight_seq(weights@),
            forall|k: int| 0 <= k < keys@.len() ==> weights@.contains_key(#[trigger] keys@[k]),
            denominator as int == weight_denominator(ws),
            i <= keys.len(),
            floors.len() == i,
            rems.len() == i,
            forall|k: int| 0 <= k < i ==> floors@[k] as int == #[trigger] weight_floors(ws)[k],
            forall|k: int| 0 <= k < i ==> rems@[k] as int == #[trigger] weight_rems(ws)[k],
            forall|k: int| 0 <= k < i ==> floors@[k] <= 10_000,
            floor_total == seq_sum(weight_floors(ws).take(i as int)),
            floor_total >= 0,
            assigned as int == if floor_total > u16::MAX {
                u16::MAX as int
            } else {
                floor_total
            },
        decreases keys.len() - i,
    {
        let w = *weights.get(&keys[i]).unwrap();
        let scaled: u128 = match w.checked_mul(10_000) {
            Some(v) => v,
            None => u128::MAX,
        };
        let q: u128 = scaled / denominator;
        let floor: u16 = if q <= 65_535 {
            q as u16
        } else {
            10_000
        };
        proof {
            lemma_weight_floor_bounded(ws, i as int);
            assert(scaled as int == scaled_weight(ws[i as int]));
        }
        let rem: u128 = scaled % denominator;
        proof {
            let fs = weight_floors(ws);
            assert(fs.take(i as int + 1).drop_last() =~= fs.take(i as int));
            floor_total = floor_total + floor;
        }
        assigned = assigned.saturating_add(floor);
        floors.push(floor);
        rems.push(rem);
        i = i + 1;
    }
    proof {
        assert(weight_floors(ws).take(keys@.len() as int) =~= weight_floors(ws));
        assert forall|k: int| 0 <= k < weight_floors(ws).len() implies 0 <= #[trigger] weight_floors(
            ws,
        )[k] by {
            assert(floors@[k] as int == weight_floors(ws)[k]);
        }
        lemma_nonneg_sum_facts(weight_floors(ws));
        assert forall|k: int| 0 <= k < keys.len() implies floors@[k] <= assigned by {
            assert(floors@[k] as int == weight_floors(ws)[k]);
        }
    }
    let extra: usize = if assigned >= 10_000 {
        0
    } else {
        (10_000 - assigned) as usize
    };
    let ghost rs = rems@.map_values(|x: u128| x as int);
    proof {
        assert(rs =~= weight_rems(ws));
    }
    let mut out: BTreeMap<u32, BasisPoints> = BTreeMap::new();
    let mut j: usize = 0;
    while j < keys.len()
        invariant
            keys@ == ks,
            ks == key_order(weights@),
            ws == weight_seq(weights@),
            keys.len() == floors.len(),
            keys.len() == rems.len(),
            rs == rems@.map_values(|x: u128| x as int),
            rs == weight_rems(ws),
            extra as int == weight_extra(ws),
            assigned as int == if seq_sum(weight_floors(ws)) > u16::MAX {
                u16::MAX as int
            } else {
                seq_sum(weight_floors(ws))
            },
            forall|k: int| 0 <= k < keys.len() ==> floors@[k] as int == #[trigger] weight_floors(ws)[k],
            forall|k: int| 0 <= k < keys.len() ==> floors@[k] <= 10_000,
            forall|k: int| 0 <= k < keys.len() ==> floors@[k] <= assigned,
            j <= keys.len(),
            forall|x: u32|
                out@.contains_key(x) <==> exists|k: int| 0 <= k < j && #[trigger] keys@[k] == x,
            forall|k: int|
                0 <= k < j ==> out@[#[trigger] keys@[k]]@ as int == normalized_shares(ws)[k],
            crate::ordered::strictly_increasing(keys@),
        decreases keys.len() - j,
    {
        let rank = rank_of(&rems, j);
        let share: u16 = if rank < extra {
            floors[j] + 1
        } else {
            floors[j]
        };
        let bp = BasisPoints::from_bounded(share);
        out.insert(keys[j], bp);
        proof {
            assert forall|x: u32|
                out@.contains_key(x) <==> exists|k: int| 0 <= k < j + 1 && #[trigger] keys@[k] == x by {
                if x == keys@[j as int] {
                    assert(0 <= j < j + 1 && keys@[j as int] == x);
                }
            }
            assert forall|k: int| 0 <= k < j + 1 implies out@[#[trigger] keys@[k]]@ as int
                == normalized_shares(ws)[k] by {
                if k < j {
                    assert(keys@[k] < keys@[j as int]);
                }
            }
        }
        j = j + 1;
    }
    proof {
        assert forall|x: u32| out@.contains_key(x) <==> weights@.contains_key(x) by {
            if weights@.contains_key(x) {
                assert(keys@.to_set().contains(x));
                let k = choose|k: int| 0 <= k < keys@.len() && keys@[k] == x;
            }
        }
        assert(out@.dom() =~= weights@.dom());
    }
    out
}

/// Who decided a country's regional split of its public-service budget.
#[derive(Clone, Copy, Debug, PartialEq, Eq, Structural, PartialOrd, Ord, Hash)]
pub enum ServiceAllocationSource {
    AutonomousPrudent,
    ExplicitPoliticalDecision,
}

/// How an actor came to bias an autonomous service allocation.
#[derive(Clone, Copy, Debug, PartialEq, Eq, Structural, PartialOrd, Ord, Hash)]
pub enum ServiceAllocationInfluenceKind {
    OfficeHolder,
    InfluenceEdge,
}

/// Evidence that an actor's political position raised a region's service score.
#[derive(Clone, Copy, Debug, PartialEq, Eq, Structural)]
pub struct ServiceAllocationInfluence {
    pub actor: ActorId,
    pub office: PowerNodeId,
    pub region: RegionId,
    pub kind: ServiceAllocationInfluenceKind,
    pub weight: BasisPoints,
    pub score_bonus: u16,
}

/// The score bonus an office holder's home region receives.
pub const OFFICE_HOLDER_SCORE_BONUS: u16 = 1_000;

/// Influence weight is divided by this to give a score bonus.
pub const INFLUENCE_SCORE_DIVISOR: u16 = 2;

/// The sum of the shares of a map (key order).
pub open spec fn share_total(m: Map<u32, BasisPoints>) -> int {
    seq_sum(share_seq(m))
}

/// Exact shares of a country's discretionary public-service budget: a non-empty map
/// whose shares sum to 10,000 basis points. Omitted regions receive zero; a single
/// region may receive 100%.
#[derive(Debug, PartialEq, Eq)]
pub struct CountryServiceAllocation {
    shares: BTreeMap<u32, BasisPoints>,
}

impl CountryServiceAllocation {
    /// The shares by region id.
    pub closed spec fn view(&self) -> Map<u32, BasisPoints> {
        self.shares@
    }

    #[verifier::type_invariant]
    closed spec fn exact(&self) -> bool {
        &&& self.shares@.dom().len() > 0
        &&& share_total(self.shares@) == 10_000
    }

    /// Creates an allocation whose shares sum to exactly 10,000 basis points; zero
    /// shares and a 100% share are valid. Rejects an empty map or another total.
    pub fn new(shares: BTreeMap<u32, BasisPoints>) -> (r: Result<Self, WorldError>)
        requires
            share_total(shares@) <= u32::MAX,
        ensures
            r is Ok <==> (shares@.dom().len() > 0 && share_total(shares@) == 10_000),
            r matches Ok(a) ==> a@ == shares@,
            r is Err ==> r == Err::<Self, WorldError>(
                WorldError::InvalidServiceAllocation(
                    "service allocation shares must sum to exactly 10000 basis points",
                ),
            ),
    {
        let keys = keys_in_order(&shares);
        let ghost ss = share_seq(shares@);
        proof {
            assert forall|k: int| 0 <= k < ss.len() implies 0 <= #[trigger] ss[k] by {}
            lemma_nonneg_sum_facts(ss);
        }
        let mut total: u32 = 0;
        let mut i: usize = 0;
        while i < keys.len()
            invariant
                keys@ == key_order(shares@),
                ss == share_seq(shares@),
                forall|k: int| 0 <= k < keys@.len() ==> shares@.contains_key(#[trigger] keys@[k]),
                i <= keys.len(),
                total as int == seq_sum(ss.take(i as int)),
                forall|m: int| 0 <= m <= ss.len() ==> #[trigger] seq_sum(ss.take(m)) <= seq_sum(ss),
                seq_sum(ss) <= u32::MAX,
            decreases keys.len() - i,
        {
            let share = *shares.get(&keys[i]).unwrap();
            proof {
                assert(ss.take(i as int + 1).drop_last() =~= ss.take(i as int));
                assert(seq_sum(ss.take(i as int + 1)) <= u32::MAX);
            }
            total = total + share.get() as u32;
            i = i + 1;
        }
        proof {
            assert(ss.take(keys@.len() as int) =~= ss);
        }
        if keys.len() == 0 || total != 10_000 {
            return Err(
                WorldError::InvalidServiceAllocation(
                    "service allocation shares must sum to exactly 10000 basis points",
                ),
            );
        }
        Ok(CountryServiceAllocation { shares })
    }

    /// The shares by region id; they sum to exactly 10,000.
    pub fn shares(&self) -> (r: &BTreeMap<u32, BasisPoints>)
        ensures
            r@ == self@,
            self@.dom().len() > 0,
            share_total(self@) == 10_000,
    {
        proof {
            use_type_invariant(self);
        }
        &self.shares
    }
}

impl Clone for CountryServiceAllocation {
    fn clone(&self) -> (r: Self)
        ensures
            r@ == self@,
    {
        proof {
            use_type_invariant(self);
        }
        CountryServiceAllocation { shares: self.shares.clone() }
    }
}

/// The first region of an allocation, in id order, that is unknown or belongs to
/// another country, as the error it draws.
pub open spec fn allocation_region_error(w: WorldView, country: CountryId, ks: Seq<u32>) -> Option<
    WorldError,
>
    decreases ks.len(),
{
    if ks.len() == 0 {
        None
    } else if !w.regions.contains_key(ks[0]) {
        Some(WorldError::UnknownRegion(RegionId(ks[0])))
    } else if w.regions[ks[0]].country != country {
        Some(WorldError::InvalidServiceAllocation("service allocation cannot include a foreign region"))
    } else {
        allocation_region_error(w, country, ks.drop_first())
    }
}

/// What setting an explicit allocation answers, or `None` when it is accepted.
pub open spec fn allocation_refusal(
    w: WorldView,
    actor: ActorId,
    country: CountryId,
    shares: Map<u32, BasisPoints>,
) -> Option<WorldError> {
    if !w.countries.contains_key(country@) {
        Some(WorldError::UnknownCountry(country))
    } else if !is_office_holder(w, actor, country) {
        Some(WorldError::UnauthorizedGovernmentAction { actor, country })
    } else {
        allocation_region_error(w, country, key_order(shares))
    }
}

/// The home region of `actor` when the actor is registered and lives in `country`.
pub open spec fn influence_home(w: WorldView, actor: ActorId, country: CountryId) -> Option<RegionId> {
    if w.actors.contains_key(actor@) && w.regions.contains_key(w.actors[actor@].home_region@)
        && w.regions[w.actors[actor@].home_region@].country == country {
        Some(w.actors[actor@].home_region)
    } else {
        None
    }
}

/// The evidence one actor's tie to an office leaves, if the actor lives in the country.
pub open spec fn evidence_item(
    w: WorldView,
    country: CountryId,
    actor: ActorId,
    office: PowerNodeId,
    kind: ServiceAllocationInfluenceKind,
    weight: BasisPoints,
    score_bonus: u16,
) -> Seq<ServiceAllocationInfluence> {
    match influence_home(w, actor, country) {
        Some(region) => seq![
            ServiceAllocationInfluence { actor, office, region, kind, weight, score_bonus },
        ],
        None => seq![],
    }
}

/// The evidence of the influence edges into `office`, over influence keys `ks`.
pub open spec fn edge_evidence(
    w: WorldView,
    country: CountryId,
    office: PowerNodeId,
    ks: Seq<(u32, u32)>,
) -> Seq<ServiceAllocationInfluence>
    decreases ks.len(),
{
    if ks.len() == 0 {
        seq![]
    } else {
        let rest = edge_evidence(w, country, office, ks.drop_last());
        let inf = w.influences[ks.last()];
        if inf.node == office && inf.weight@ / 2 != 0 {
            rest + evidence_item(
                w,
                country,
                inf.actor,
                office,
                ServiceAllocationInfluenceKind::InfluenceEdge,
                inf.weight,
                (inf.weight@ / 2) as u16,
            )
        } else {
            rest
        }
    }
}

/// The evidence of one political office: its holder, then its influence edges.
pub open spec fn office_evidence(w: WorldView, country: CountryId, node: crate::world::PowerNode) -> Seq<
    ServiceAllocationInfluence,
> {
    let holder = match node.holder {
        Some(h) => evidence_item(
            w,
            country,
            h,
            node.id,
            ServiceAllocationInfluenceKind::OfficeHolder,
            BasisPoints::spec_from(10_000),
            OFFICE_HOLDER_SCORE_BONUS,
        ),
        None => seq![],
    };
    holder + edge_evidence(w, country, node.id, pair_key_order(w.influences))
}

/// The evidence of the political offices of `country` among power-node ids `ks`.
pub open spec fn offices_evidence(w: WorldView, country: CountryId, ks: Seq<u32>) -> Seq<
    ServiceAllocationInfluence,
>
    decreases ks.len(),
{
    if ks.len() == 0 {
        seq![]
    } else {
        let rest = offices_evidence(w, country, ks.drop_last());
        let node = w.power_nodes[ks.last()];
        if node.country == country && node.kind == PowerNodeKind::PoliticalOffice {
            rest + office_evidence(w, country, node)
        } else {
            rest
        }
    }
}

/// All political evidence that biases the autonomous service allocation of a country,
/// offices in id order.
pub open spec fn service_influence_evidence(w: WorldView, country: CountryId) -> Seq<
    ServiceAllocationInfluence,
> {
    offices_evidence(w, country, key_order(w.power_nodes))
}

/// The score bonus of each region: the saturating sum of the bonuses of its evidence.
pub open spec fn bonus_from(ev: Seq<ServiceAllocationInfluence>) -> Map<u32, u128>
    decreases ev.len(),
{
    if ev.len() == 0 {
        Map::empty()
    } else {
        let m = bonus_from(ev.drop_last());
        let e = ev.last();
        let key = e.region@;
        let v = if m.contains_key(key) {
            if m[key] + e.score_bonus > u128::MAX {
                u128::MAX
            } else {
                (m[key] + e.score_bonus) as u128
            }
        } else {
            e.score_bonus as u128
        };
        m.insert(key, v)
    }
}

/// `x` saturated at `u128::MAX`.
pub open spec fn sat_u128(x: int) -> int {
    if x > u128::MAX {
        u128::MAX as int
    } else {
        x
    }
}

/// The policy priority a region presses (stability when none is recorded).
pub open spec fn interest_priority(w: WorldView, id: u32) -> RegionalPolicyPriority {
    if w.regional_interests.contains_key(id) {
        w.regional_interests[id].priority
    } else {
        RegionalPolicyPriority::Stability
    }
}

/// The pressure of a region's priority (zero when none is recorded).
pub open spec fn interest_pressure(w: WorldView, id: u32) -> int {
    if w.regional_interests.contains_key(id) {
        w.regional_interests[id].priority_pressure@ as int
    } else {
        0
    }
}

/// A region's confidence in government (50% when none is recorded).
pub open spec fn interest_satisfaction(w: WorldView, id: u32) -> int {
    if w.regional_interests.contains_key(id) {
        w.regional_interests[id].satisfaction@ as int
    } else {
        5_000
    }
}

/// A region's observed public-service shortfall (zero when none is recorded).
pub open spec fn service_shortfall(w: WorldView, id: u32) -> int {
    if w.regional_social_pressure.contains_key(id) {
        w.regional_social_pressure[id].public_service_shortfall@ as int
    } else {
        0
    }
}

/// The prudence weight of a region: its population (at least one) times a score of
/// 5,000 plus its direct service need, half its lack of confidence and its political
/// bonus, all saturating.
pub open spec fn prudent_weight(w: WorldView, bonus: Map<u32, u128>, id: u32) -> int {
    let people = w.regions[id].population@ as int;
    let population = if people > 1 {
        people
    } else {
        1
    };
    let direct_need = if interest_priority(w, id) == RegionalPolicyPriority::PublicServices {
        interest_pressure(w, id)
    } else {
        service_shortfall(w, id) / 2
    };
    let low_confidence = if interest_satisfaction(w, id) >= 10_000 {
        0
    } else {
        10_000 - interest_satisfaction(w, id)
    };
    let b = if bonus.contains_key(id) {
        bonus[id] as int
    } else {
        0
    };
    let score = sat_u128(5_000 + direct_need + low_confidence / 2 + b);
    sat_u128(population * score)
}

/// The prudence weights of the regions of a country.
pub open spec fn prudent_weights(w: WorldView, country: CountryId) -> Map<u32, u128> {
    let bonus = bonus_from(service_influence_evidence(w, country));
    Map::new(
        |id: u32| w.regions.contains_key(id) && w.regions[id].country == country,
        |id: u32| prudent_weight(w, bonus, id) as u128,
    )
}

impl World {
    /// Replaces the discretionary regional service allocation of a country under a
    /// political office holder. This checks feasibility and authority, not fairness.
    /// Rejects an unknown country, an unauthorized actor, and then (in region-id order)
    /// an unknown or foreign region; a rejection changes nothing.
    pub fn set_country_service_allocation(
        &mut self,
        actor: ActorId,
        country: CountryId,
        allocation: CountryServiceAllocation,
    ) -> (r: Result<(), WorldError>)
        ensures
            allocation_refusal(old(self)@, actor, country, allocation@) matches Some(e) ==> r
                == Err::<(), WorldError>(e) && final(self)@ == old(self)@,
            allocation_refusal(old(self)@, actor, country, allocation@) is None ==> r is Ok
                && exists|shares: BTreeMap<u32, BasisPoints>|
                shares@ == allocation@ && final(self)@ == (WorldView {
                    country_service_allocations: old(self)@.country_service_allocations.insert(
                        country@,
                        allocation@,
                    ),
                    events: old(self)@.events.push(
                        EventEnvelope {
                            date: old(self)@.date,
                            event: DomainEvent::CountryServiceAllocationSet { actor, country, shares },
                        },
                    ),
                    ..old(self)@
                }),
    {
        if !self.countries.contains_key(&country.get()) {
            return Err(WorldError::UnknownCountry(country));
        }
        if !self.can_authorize_emergency_relief(actor, country) {
            return Err(WorldError::UnauthorizedGovernmentAction { actor, country });
        }
        let keys = keys_in_order(allocation.shares());
        proof {
            assert(keys@.subrange(0, keys@.len() as int) =~= keys@);
        }
        let mut i: usize = 0;
        while i < keys.len()
            invariant
                keys@ == key_order(allocation@),
                i <= keys.len(),
                self@.countries.contains_key(country@),
                is_office_holder(self@, actor, country),
                allocation_region_error(self@, country, keys@) == allocation_region_error(
                    self@,
                    country,
                    keys@.subrange(i as int, keys@.len() as int),
                ),
            decreases keys.len() - i,
        {
            let id = keys[i];
            proof {
                assert(keys@.subrange(i as int, keys@.len() as int).drop_first() =~= keys@.subrange(
                    i as int + 1,
                    keys@.len() as int,
                ));
                assert(keys@.subrange(i as int, keys@.len() as int)[0] == id);
            }
            match self.regions.get(&id) {
                None => {
                    let rid = RegionId::new(id);
                    proof {
                        let sub = keys@.subrange(i as int, keys@.len() as int);
                        assert(!self@.regions.contains_key(sub[0]));
                        assert(allocation_region_error(self@, country, sub) == Some(
                            WorldError::UnknownRegion(RegionId(id)),
                        ));
                        assert(rid == RegionId(id));
                        assert(allocation_refusal(self@, actor, country, allocation@) == Some(
                            WorldError::UnknownRegion(rid),
                        ));
                    }
                    return Err(WorldError::UnknownRegion(rid));
                },
                Some(region) => {
                    if region.country != country {
                        return Err(
                            WorldError::InvalidServiceAllocation(
                                "service allocation cannot include a foreign region",
                            ),
                        );
                    }
                },
            }
            i = i + 1;
        }
        proof {
            assert(keys@.subrange(keys@.len() as int, keys@.len() as int) =~= Seq::<u32>::empty());
        }
        let shares = allocation.shares().clone();
        self.country_service_allocations.insert(country.get(), allocation);
        self.events.append(
            self.date,
            DomainEvent::CountryServiceAllocationSet { actor, country, shares },
        );
        proof {
            assert(self@.country_service_allocations =~= old(self)@.country_service_allocations.insert(
                country@,
                allocation@,
            ));
        }
        Ok(())
    }

    /// Records one actor's tie to an office as evidence and adds its bonus to the
    /// actor's home region, when the actor lives in `country`.
    fn record_service_allocation_influence(
        &self,
        actor: ActorId,
        office: PowerNodeId,
        kind: ServiceAllocationInfluenceKind,
        weight: BasisPoints,
        score_bonus: u16,
        country: CountryId,
        bonuses: &mut BTreeMap<u32, u128>,
        evidence: &mut Vec<ServiceAllocationInfluence>,
    )
        requires
            old(bonuses)@ == bonus_from(old(evidence)@),
        ensures
            final(evidence)@ == old(evidence)@ + evidence_item(
                self@,
                country,
                actor,
                office,
                kind,
                weight,
                score_bonus,
            ),
            final(bonuses)@ == bonus_from(final(evidence)@),
    {
        let home = match self.actors.get(&actor.get()) {
            Some(a) => a.home_region,
            None => {
                assert(old(evidence)@ + seq![] =~= old(evidence)@);
                return;
            },
        };
        let in_country = match self.regions.get(&home.get()) {
            Some(region) => region.country == country,
            None => false,
        };
        if !in_country {
            assert(old(evidence)@ + seq![] =~= old(evidence)@);
            return;
        }
        let current: Option<u128> = match bonuses.get(&home.get()) {
            Some(b) => Some(*b),
            None => None,
        };
        let updated: u128 = match current {
            Some(b) => b.saturating_add(score_bonus as u128),
            None => score_bonus as u128,
        };
        bonuses.insert(home.get(), updated);
        let item = ServiceAllocationInfluence { actor, office, region: home, kind, weight, score_bonus };
        evidence.push(item);
        proof {
            assert(evidence@.drop_last() =~= old(evidence)@);
            assert(evidence@ =~= old(evidence)@ + seq![item]);
        }
    }

    /// The political evidence of a country and the score bonus it gives each region.
    fn service_allocation_political_bonus(&self, country: CountryId) -> (r: (
        BTreeMap<u32, u128>,
        Vec<ServiceAllocationInfluence>,
    ))
        ensures
            r.1@ == service_influence_evidence(self@, country),
            r.0@ == bonus_from(r.1@),
    {
        let mut bonuses: BTreeMap<u32, u128> = BTreeMap::new();
        let mut evidence: Vec<ServiceAllocationInfluence> = Vec::new();
        let node_keys = keys_in_order(&self.power_nodes);
        let inf_keys = pair_keys_in_order(&self.influences);
        proof {
            assert(bonuses@ =~= bonus_from(evidence@));
            assert(node_keys@.take(0) =~= Seq::<u32>::empty());
        }
        let mut i: usize = 0;
        while i < node_keys.len()
            invariant
                node_keys@ == key_order(self@.power_nodes),
                inf_keys@ == pair_key_order(self@.influences),
                forall|k: int| 0 <= k < node_keys@.len() ==> self@.power_nodes.contains_key(#[trigger] node_keys@[k]),
                forall|k: int| 0 <= k < inf_keys@.len() ==> self@.influences.contains_key(#[trigger] inf_keys@[k]),
                i <= node_keys.len(),
                evidence@ == offices_evidence(self@, country, node_keys@.take(i as int)),
                bonuses@ == bonus_from(evidence@),
            decreases node_keys.len() - i,
        {
            let node = self.power_nodes.get(&node_keys[i]).unwrap();
            proof {
                assert(node_keys@.take(i as int + 1).drop_last() =~= node_keys@.take(i as int));
            }
            if node.country == country && node.kind == PowerNodeKind::PoliticalOffice {
                let ghost base = evidence@;
                let office = node.id;
                match node.holder {
                    Some(holder) => {
                        self.record_service_allocation_influence(
                            holder,
                            office,
                            ServiceAllocationInfluenceKind::OfficeHolder,
                            BasisPoints::full(),
                            OFFICE_HOLDER_SCORE_BONUS,
                            country,
                            &mut bonuses,
                            &mut evidence,
                        );
                    },
                    None => {
                        assert(evidence@ =~= base + seq![]);
                    },
                }
                let ghost with_holder = evidence@;
                proof {
                    assert(inf_keys@.take(0) =~= Seq::<(u32, u32)>::empty());
                    assert(evidence@ =~= with_holder + edge_evidence(self@, country, office, inf_keys@.take(0)));
                }
                let mut j: usize = 0;
                while j < inf_keys.len()
                    invariant
                        inf_keys@ == pair_key_order(self@.influences),
                        forall|k: int| 0 <= k < inf_keys@.len() ==> self@.influences.contains_key(#[trigger] inf_keys@[k]),
                        j <= inf_keys.len(),
                        evidence@ == with_holder + edge_evidence(self@, country, office, inf_keys@.take(j as int)),
                        bonuses@ == bonus_from(evidence@),
                    decreases inf_keys.len() - j,
                {
                    let inf = self.influences.get(&inf_keys[j]).unwrap();
                    let ghost before = evidence@;
                    proof {
                        assert(inf_keys@.take(j as int + 1).drop_last() =~= inf_keys@.take(j as int));
                    }
                    if inf.node == office {
                        let score_bonus: u16 = inf.weight.get() / INFLUENCE_SCORE_DIVISOR;
                        if score_bonus != 0 {
                            self.record_service_allocation_influence(
                                inf.actor,
                                office,
                                ServiceAllocationInfluenceKind::InfluenceEdge,
                                inf.weight,
                                score_bonus,
                                country,
                                &mut bonuses,
                                &mut evidence,
                            );
                            proof {
                                assert(evidence@ =~= with_holder + edge_evidence(self@, country, office, inf_keys@.take(j as int + 1)));
                            }
                        }
                    }
                    j = j + 1;
                }
                proof {
                    assert(inf_keys@.take(inf_keys@.len() as int) =~= inf_keys@);
                    assert(evidence@ =~= base + office_evidence(self@, country, *node));
                }
            }
            i = i + 1;
        }
        proof {
            assert(node_keys@.take(node_keys@.len() as int) =~= node_keys@);
        }
        (bonuses, evidence)
    }

    /// The prudence-weighted shares of the regions of a country and the political
    /// evidence behind them.
    fn derive_prudent_service_shares(&self, country: CountryId) -> (r: (
        BTreeMap<u32, BasisPoints>,
        Vec<ServiceAllocationInfluence>,
    ))
        requires
            seq_sum(weight_seq(prudent_weights(self@, country))) <= u128::MAX,
        ensures
            is_normalization(prudent_weights(self@, country), r.0@),
            r.1@ == service_influence_evidence(self@, country),
    {
        let (bonuses, influences) = self.service_allocation_political_bonus(country);
        let ghost bonus = bonuses@;
        let keys = keys_in_order(&self.regions);
        let mut weights: BTreeMap<u32, u128> = BTreeMap::new();
        let mut i: usize = 0;
        while i < keys.len()
            invariant
                keys@ == key_order(self@.regions),
                crate::ordered::is_key_order(self@.regions, keys@),
                forall|k: int| 0 <= k < keys@.len() ==> self@.regions.contains_key(#[trigger] keys@[k]),
                bonus == bonuses@,
                bonus == bonus_from(service_influence_evidence(self@, country)),
                i <= keys.len(),
                forall|id: u32|
                    weights@.contains_key(id) <==> (self@.regions.contains_key(id)
                        && self@.regions[id].country == country && exists|k: int|
                        0 <= k < i && #[trigger] keys@[k] == id),
                forall|id: u32|
                    #[trigger] weights@.contains_key(id) ==> weights@[id] as int == prudent_weight(
                        self@,
                        bonus,
                        id,
                    ),
            decreases keys.len() - i,
        {
            let id = keys[i];
            let region = self.regions.get(&id).unwrap();
            if region.country == country {
                let people = region.population.people();
                let population: u128 = if people > 1 {
                    people as u128
                } else {
                    1
                };
                let interest = match self.regional_interests.get(&id) {
                    Some(x) => *x,
                    None => RegionalInterest::default(),
                };
                let pressure = match self.regional_social_pressure.get(&id) {
                    Some(x) => *x,
                    None => RegionalSocialPressure::default(),
                };
                let direct_need: u128 = if interest.priority == RegionalPolicyPriority::PublicServices {
                    interest.priority_pressure.get() as u128
                } else {
                    pressure.public_service_shortfall.get() as u128 / 2
                };
                let low_confidence: u128 = 10_000u16.saturating_sub(interest.satisfaction.get()) as u128;
                let bonus_here: u128 = match bonuses.get(&id) {
                    Some(b) => *b,
                    None => 0,
                };
                let score: u128 = 5_000u128.saturating_add(direct_need).saturating_add(
                    low_confidence / 2,
                ).saturating_add(bonus_here);
                let weight: u128 = match population.checked_mul(score) {
                    Some(v) => v,
                    None => u128::MAX,
                };
                proof {
                    assert(weight as int == prudent_weight(self@, bonus, id));
                }
                weights.insert(id, weight);
            }
            proof {
                assert forall|x: u32|
                    weights@.contains_key(x) <==> (self@.regions.contains_key(x)
                        && self@.regions[x].country == country && exists|k: int|
                        0 <= k < i + 1 && #[trigger] keys@[k] == x) by {
                    if x == id && self@.regions[x].country == country {
                        assert(0 <= i < i + 1 && keys@[i as int] == x);
                    }
                    if exists|k: int| 0 <= k < i + 1 && #[trigger] keys@[k] == x {
                        let k = choose|k: int| 0 <= k < i + 1 && #[trigger] keys@[k] == x;
                        if k < i {
                        } else {
                            assert(x == id);
                        }
                    }
                }
            }
            i = i + 1;
        }
        proof {
            assert forall|x: u32| #[trigger] weights@.contains_key(x) <==> prudent_weights(self@, country).contains_key(x) by {
                if self@.regions.contains_key(x) {
                    assert(keys@.to_set().contains(x));
                    let k = choose|k: int| 0 <= k < keys@.len() && keys@[k] == x;
                }
            }
            assert(weights@ =~= prudent_weights(self@, country));
        }
        let shares = normalize_weights(&weights);
        (shares, influences)
    }

    /// Plans the regional split of a country's public-service budget (negative budgets
    /// count as zero): an explicit political allocation when one is set, else prudence
    /// weights biased by political influence; the split follows `is_budget_split`.
    pub fn plan_regional_service_budgets(&self, country: CountryId, service_budget: i128) -> (r: (
        ServiceAllocationSource,
        BTreeMap<u32, BasisPoints>,
        BTreeMap<u32, i128>,
        Vec<ServiceAllocationInfluence>,
    ))
        requires
            !self@.country_service_allocations.contains_key(country@) ==> seq_sum(
                weight_seq(prudent_weights(self@, country)),
            ) <= u128::MAX,
        ensures
            self@.country_service_allocations.contains_key(country@) ==> {
                &&& r.0 == ServiceAllocationSource::ExplicitPoliticalDecision
                &&& r.1@ == self@.country_service_allocations[country@]
                &&& r.3@.len() == 0
            },
            !self@.country_service_allocations.contains_key(country@) ==> {
                &&& r.0 == ServiceAllocationSource::AutonomousPrudent
                &&& is_normalization(prudent_weights(self@, country), r.1@)
                &&& r.3@ == service_influence_evidence(self@, country)
            },
            is_budget_split(
                if service_budget > 0 {
                    service_budget as int
                } else {
                    0
                },
                r.1@,
                r.2@,
            ),
    {
        let (source, shares, influences) = match self.country_service_allocations.get(&country.get()) {
            Some(explicit) => (
                ServiceAllocationSource::ExplicitPoliticalDecision,
                explicit.shares().clone(),
                Vec::new(),
            ),
            None => {
                let (shares, influences) = self.derive_prudent_service_shares(country);
                (ServiceAllocationSource::AutonomousPrudent, shares, influences)
            },
        };
        let budget: i128 = if service_budget > 0 {
            service_budget
        } else {
            0
        };
        let budgets = allocate_integer_budget(budget, &shares);
        (source, shares, budgets, influences)
    }

    pub fn country_service_allocations(&self) -> (r: &BTreeMap<u32, CountryServiceAllocation>)
        ensures
            r@.map_values(|a: CountryServiceAllocation| a@) == self@.country_service_allocations,
    {
        &self.country_service_allocations
    }
}

} // verus!
