use vstd::prelude::*;
use vstd::set_lib::*;
use vstd::relations::injective_on;

verus! {

broadcast use vstd::set::group_set_axioms;

/// Row `j` is served before row `i` in largest-remainder order: a larger remainder
/// first, and among equal remainders the earlier row.
pub open spec fn comes_before(rems: Seq<int>, j: int, i: int) -> bool {
    rems[j] > rems[i] || (rems[j] == rems[i] && j < i)
}

/// The number of indices in `0..m` that satisfy `p`.
pub open spec fn count_upto(p: spec_fn(int) -> bool, m: int) -> nat
    decreases m,
{
    if m <= 0 {
        0
    } else {
        count_upto(p, m - 1) + if p(m - 1) {
            1nat
        } else {
            0nat
        }
    }
}

/// The position of row `i` in largest-remainder order (0 is served first).
pub open spec fn remainder_rank(rems: Seq<int>, i: int) -> nat {
    count_upto(|j: int| comes_before(rems, j, i), rems.len() as int)
}

/// Largest-remainder apportionment: each row keeps its floor, and the `extra`
/// rows ranked first by remainder receive one more unit.
pub open spec fn apportioned(floors: Seq<int>, rems: Seq<int>, extra: int) -> Seq<int> {
    Seq::new(
        floors.len(),
        |i: int|
            floors[i] + if remainder_rank(rems, i) < extra {
                1int
            } else {
                0int
            },
    )
}

/// The sum of a sequence of integers.
pub open spec fn seq_sum(s: Seq<int>) -> int
    decreases s.len(),
{
    if s.len() == 0 {
        0
    } else {
        seq_sum(s.drop_last()) + s.last()
    }
}

/// A running count over `0..m` is the size of the filtered range.
pub proof fn lemma_count_is_len(p: spec_fn(int) -> bool, m: int)
    requires
        m >= 0,
    ensures
        set_int_range(0, m).filter(p).finite(),
        count_upto(p, m) == set_int_range(0, m).filter(p).len(),
    decreases m,
{
    if m == 0 {
        assert(set_int_range(0, 0).filter(p) =~= Set::empty());
    } else {
        lemma_count_is_len(p, m - 1);
        let prev = set_int_range(0, m - 1).filter(p);
        if p(m - 1) {
            assert(set_int_range(0, m).filter(p) =~= prev.insert(m - 1));
        } else {
            assert(set_int_range(0, m).filter(p) =~= prev);
        }
    }
}

/// The rows ranked before row `i`.
pub open spec fn ranked_before(rems: Seq<int>, i: int) -> Set<int> {
    set_int_range(0, rems.len() as int).filter(|j: int| comes_before(rems, j, i))
}

proof fn lemma_rank_is_len(rems: Seq<int>, i: int)
    ensures
        ranked_before(rems, i).finite(),
        remainder_rank(rems, i) == ranked_before(rems, i).len(),
{
    lemma_count_is_len(|j: int| comes_before(rems, j, i), rems.len() as int);
}

/// Ranks are below the number of rows, and distinct rows have distinct ranks.
proof fn lemma_rank_facts(rems: Seq<int>, i: int, k: int)
    requires
        0 <= i < rems.len(),
        0 <= k < rems.len(),
    ensures
        remainder_rank(rems, i) < rems.len(),
        i != k ==> remainder_rank(rems, i) != remainder_rank(rems, k),
{
    let n = rems.len() as int;
    lemma_int_range(0, n);
    lemma_rank_is_len(rems, i);
    lemma_rank_is_len(rems, k);
    let bi = ranked_before(rems, i);
    let bk = ranked_before(rems, k);
    assert(bi.subset_of(set_int_range(0, n).remove(i)));
    lemma_len_subset(bi, set_int_range(0, n).remove(i));
    if i != k {
        if comes_before(rems, i, k) {
            assert(bi.subset_of(bk.remove(i)));
            lemma_len_subset(bi, bk.remove(i));
        } else {
            assert(comes_before(rems, k, i));
            assert(bk.subset_of(bi.remove(k)));
            lemma_len_subset(bk, bi.remove(k));
        }
    }
}

/// Exactly `min(extra, n)` rows are ranked below `extra`.
pub proof fn lemma_rows_ranked_below(rems: Seq<int>, extra: int)
    requires
        extra >= 0,
    ensures
        count_upto(|i: int| remainder_rank(rems, i) < extra, rems.len() as int) == if extra
            < rems.len() {
            extra
        } else {
            rems.len() as int
        },
{
    let n = rems.len() as int;
    let rank = |i: int| remainder_rank(rems, i) as int;
    let rows = set_int_range(0, n);
    lemma_int_range(0, n);
    assert forall|a: int, b: int|
        rows.contains(a) && rows.contains(b) && #[trigger] rank(a) == #[trigger] rank(b) implies a
        == b by {
        lemma_rank_facts(rems, a, b);
    }
    assert(injective_on(rank, rows));
    let image = rows.map(rank);
    lemma_map_size(rows, image, rank);
    assert forall|r: int| image.contains(r) implies rows.contains(r) by {
        let a = choose|a: int| rows.contains(a) && r == rank(a);
        lemma_rank_facts(rems, a, a);
    }
    lemma_subset_equality(image, rows);
    let m = if extra < n {
        extra
    } else {
        n
    };
    let below = rows.filter(|i: int| remainder_rank(rems, i) < extra);
    assert(below.subset_of(rows));
    vstd::set_lib::lemma_set_subset_finite(rows, below);
    assert forall|a: int, b: int|
        below.contains(a) && below.contains(b) && #[trigger] rank(a) == #[trigger] rank(b) implies a
        == b by {
        lemma_rank_facts(rems, a, b);
    }
    let low = below.map(rank);
    lemma_map_size(below, low, rank);
    assert forall|r: int| low.contains(r) <==> set_int_range(0, m).contains(r) by {
        if low.contains(r) {
            let a = choose|a: int| below.contains(a) && r == rank(a);
            lemma_rank_facts(rems, a, a);
        }
        if set_int_range(0, m).contains(r) {
            assert(image.contains(r));
            let a = choose|a: int| rows.contains(a) && r == rank(a);
            assert(below.contains(a));
        }
    }
    assert(low =~= set_int_range(0, m));
    lemma_int_range(0, m);
    lemma_count_is_len(|i: int| remainder_rank(rems, i) < extra, n);
}

/// Summing the apportioned rows gives the floors plus one unit per row ranked below `extra`.
proof fn lemma_apportioned_prefix(floors: Seq<int>, rems: Seq<int>, extra: int, m: int)
    requires
        floors.len() == rems.len(),
        0 <= m <= floors.len(),
    ensures
        seq_sum(apportioned(floors, rems, extra).take(m)) == seq_sum(floors.take(m)) + count_upto(
            |i: int| remainder_rank(rems, i) < extra,
            m,
        ),
    decreases m,
{
    let a = apportioned(floors, rems, extra);
    if m > 0 {
        lemma_apportioned_prefix(floors, rems, extra, m - 1);
        assert(a.take(m).drop_last() =~= a.take(m - 1));
        assert(floors.take(m).drop_last() =~= floors.take(m - 1));
    } else {
        assert(a.take(0) =~= Seq::<int>::empty());
        assert(floors.take(0) =~= Seq::<int>::empty());
    }
}

/// The apportioned rows sum to the floors plus `min(extra, n)`.
pub proof fn lemma_apportioned_sum(floors: Seq<int>, rems: Seq<int>, extra: int)
    requires
        floors.len() == rems.len(),
        extra >= 0,
    ensures
        seq_sum(apportioned(floors, rems, extra)) == seq_sum(floors) + if extra < rems.len() {
            extra
        } else {
            rems.len() as int
        },
{
    let n = floors.len() as int;
    lemma_apportioned_prefix(floors, rems, extra, n);
    assert(apportioned(floors, rems, extra).take(n) =~= apportioned(floors, rems, extra));
    assert(floors.take(n) =~= floors);
    lemma_rows_ranked_below(rems, extra);
}

/// A sum distributes over `c[i] == k * a[i] + b[i]`.
pub proof fn lemma_sum_affine(a: Seq<int>, b: Seq<int>, c: Seq<int>, k: int)
    requires
        a.len() == b.len(),
        b.len() == c.len(),
        forall|i: int| 0 <= i < c.len() ==> c[i] == k * a[i] + b[i],
    ensures
        seq_sum(c) == k * seq_sum(a) + seq_sum(b),
    decreases c.len(),
{
    if c.len() > 0 {
        let n = c.len() - 1;
        lemma_sum_affine(a.drop_last(), b.drop_last(), c.drop_last(), k);
        let sa = seq_sum(a.drop_last());
        let x = a.last();
        assert(k * (sa + x) == k * sa + k * x) by (nonlinear_arith);
    }
}

/// A sum of values in `lo..=hi` lies in `n * lo ..= n * hi`.
pub proof fn lemma_sum_bounds(s: Seq<int>, lo: int, hi: int)
    requires
        forall|i: int| 0 <= i < s.len() ==> lo <= #[trigger] s[i] <= hi,
    ensures
        s.len() * lo <= seq_sum(s) <= s.len() * hi,
    decreases s.len(),
{
    if s.len() > 0 {
        lemma_sum_bounds(s.drop_last(), lo, hi);
        let n = s.len() - 1;
        assert((n + 1) * lo == n * lo + lo) by (nonlinear_arith);
        assert((n + 1) * hi == n * hi + hi) by (nonlinear_arith);
    }
}

/// In a sequence of non-negative values, every prefix sum and every element is at most the sum.
pub proof fn lemma_nonneg_sum_facts(s: Seq<int>)
    requires
        forall|i: int| 0 <= i < s.len() ==> 0 <= #[trigger] s[i],
    ensures
        forall|m: int| 0 <= m <= s.len() ==> 0 <= #[trigger] seq_sum(s.take(m)) <= seq_sum(s),
        forall|i: int| 0 <= i < s.len() ==> #[trigger] s[i] <= seq_sum(s),
    decreases s.len(),
{
    if s.len() > 0 {
        let t = s.drop_last();
        assert forall|i: int| 0 <= i < t.len() implies 0 <= #[trigger] t[i] by {
            assert(t[i] == s[i]);
        }
        lemma_nonneg_sum_facts(t);
        assert(t.take(t.len() as int) =~= t);
        assert(0 <= seq_sum(t));
        assert(seq_sum(s) == seq_sum(t) + s.last());
        assert forall|m: int| 0 <= m <= s.len() implies 0 <= #[trigger] seq_sum(s.take(m))
            <= seq_sum(s) by {
            if m < s.len() {
                assert(s.take(m) =~= t.take(m));
                assert(0 <= seq_sum(t.take(m)) <= seq_sum(t));
            } else {
                assert(s.take(m) =~= s);
            }
        }
        assert forall|i: int| 0 <= i < s.len() implies #[trigger] s[i] <= seq_sum(s) by {
            if i < s.len() - 1 {
                assert(s[i] == t[i]);
                assert(t[i] <= seq_sum(t));
            }
        }
    } else {
        assert forall|m: int| 0 <= m <= s.len() implies 0 <= #[trigger] seq_sum(s.take(m))
            <= seq_sum(s) by {
            assert(s.take(m) =~= s);
        }
    }
}

} // verus!
