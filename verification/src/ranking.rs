use vstd::prelude::*;
use vstd::relations::injective_on;
use vstd::set_lib::*;

use crate::apportion::{count_upto, lemma_count_is_len};

verus! {

broadcast use vstd::set::group_set_axioms;

/// Whether `before` is a strict total order on the indices `0..n`.
pub open spec fn is_strict_order(before: spec_fn(int, int) -> bool, n: int) -> bool {
    &&& forall|i: int| 0 <= i < n ==> !#[trigger] before(i, i)
    &&& forall|i: int, j: int, k: int|
        0 <= i < n && 0 <= j < n && 0 <= k < n && #[trigger] before(i, j) && #[trigger] before(j, k)
            ==> before(i, k)
    &&& forall|i: int, j: int|
        0 <= i < n && 0 <= j < n && i != j ==> #[trigger] before(i, j) || #[trigger] before(j, i)
}

/// The position of index `i` among `0..n` when ordered by `before`.
pub open spec fn rank_in(before: spec_fn(int, int) -> bool, n: int, i: int) -> nat {
    count_upto(|j: int| before(j, i), n)
}

/// The index at position `r` when `0..n` is ordered by `before`.
pub open spec fn index_at(before: spec_fn(int, int) -> bool, n: int, r: int) -> int {
    choose|i: int| 0 <= i < n && rank_in(before, n, i) == r
}

/// `s` reordered by `before` on its indices.
pub open spec fn ordered_by<T>(s: Seq<T>, before: spec_fn(int, int) -> bool) -> Seq<T> {
    Seq::new(s.len(), |r: int| s[index_at(before, s.len() as int, r)])
}

/// Ranks under a strict total order are positions: each lies in `0..n`, distinct
/// indices have distinct ranks, and every position is the rank of some index.
pub proof fn lemma_rank_bijection(before: spec_fn(int, int) -> bool, n: int)
    requires
        n >= 0,
        is_strict_order(before, n),
    ensures
        forall|i: int| 0 <= i < n ==> #[trigger] rank_in(before, n, i) < n,
        forall|i: int, k: int|
            0 <= i < n && 0 <= k < n && i != k ==> #[trigger] rank_in(before, n, i)
                != #[trigger] rank_in(before, n, k),
        forall|r: int|
            0 <= r < n ==> 0 <= #[trigger] index_at(before, n, r) < n && rank_in(
                before,
                n,
                index_at(before, n, r),
            ) == r,
{
    lemma_int_range(0, n);
    let rows = set_int_range(0, n);
    assert forall|i: int| 0 <= i < n implies #[trigger] rank_in(before, n, i) < n by {
        lemma_count_is_len(|j: int| before(j, i), n);
        let bi = rows.filter(|j: int| before(j, i));
        assert(bi.subset_of(rows.remove(i)));
        lemma_len_subset(bi, rows.remove(i));
    }
    assert forall|i: int, k: int|
        0 <= i < n && 0 <= k < n && i != k implies #[trigger] rank_in(before, n, i)
        != #[trigger] rank_in(before, n, k) by {
        lemma_count_is_len(|j: int| before(j, i), n);
        lemma_count_is_len(|j: int| before(j, k), n);
        let bi = rows.filter(|j: int| before(j, i));
        let bk = rows.filter(|j: int| before(j, k));
        if before(i, k) {
            assert(bi.subset_of(bk.remove(i)));
            lemma_len_subset(bi, bk.remove(i));
        } else {
            assert(before(k, i));
            assert(bk.subset_of(bi.remove(k)));
            lemma_len_subset(bk, bi.remove(k));
        }
    }
    let rank = |i: int| rank_in(before, n, i) as int;
    assert(injective_on(rank, rows));
    let image = rows.map(rank);
    lemma_map_size(rows, image, rank);
    assert forall|r: int| image.contains(r) implies rows.contains(r) by {}
    lemma_subset_equality(image, rows);
    assert forall|r: int| 0 <= r < n implies 0 <= #[trigger] index_at(before, n, r) < n
        && rank_in(before, n, index_at(before, n, r)) == r by {
        assert(image.contains(r));
        let i = choose|i: int| rows.contains(i) && r == rank(i);
        assert(0 <= i < n && rank_in(before, n, i) == r);
    }
}

/// Places `v[i]` at position `ranks[i]`: given the ranks of a strict total order,
/// the result is `v` reordered by it.
pub fn place_by_rank<T: Copy>(
    v: &Vec<T>,
    ranks: &Vec<usize>,
    before: Ghost<spec_fn(int, int) -> bool>,
) -> (r: Vec<T>)
    requires
        ranks@.len() == v@.len(),
        is_strict_order(before@, v@.len() as int),
        forall|i: int| 0 <= i < v@.len() ==> ranks@[i] as int == rank_in(before@, v@.len() as int, i),
    ensures
        r@ == ordered_by(v@, before@),
{
    let n = v.len();
    proof {
        lemma_rank_bijection(before@, n as int);
    }
    if n == 0 {
        let out: Vec<T> = Vec::new();
        assert(out@ =~= ordered_by(v@, before@));
        return out;
    }
    let mut out: Vec<T> = Vec::new();
    let mut k: usize = 0;
    while k < n
        invariant
            k <= n,
            n == v@.len(),
            n > 0,
            out@.len() == k,
        decreases n - k,
    {
        out.push(v[0]);
        k = k + 1;
    }
    let mut i: usize = 0;
    while i < n
        invariant
            i <= n,
            n == v@.len(),
            ranks@.len() == n,
            out@.len() == n,
            is_strict_order(before@, n as int),
            forall|j: int| 0 <= j < n ==> ranks@[j] as int == rank_in(before@, n as int, j),
            forall|j: int| 0 <= j < n ==> #[trigger] rank_in(before@, n as int, j) < n,
            forall|j: int, k: int|
                0 <= j < n && 0 <= k < n && j != k ==> #[trigger] rank_in(before@, n as int, j)
                    != #[trigger] rank_in(before@, n as int, k),
            forall|j: int| 0 <= j < i ==> out@[#[trigger] (ranks@[j] as int)] == v@[j],
        decreases n - i,
    {
        let pos = ranks[i];
        out.set(pos, v[i]);
        proof {
            assert forall|j: int| 0 <= j < i + 1 implies out@[#[trigger] (ranks@[j] as int)]
                == v@[j] by {
                if j < i {
                    assert(ranks@[j] != ranks@[i as int]);
                }
            }
        }
        i = i + 1;
    }
    proof {
        assert forall|r: int| 0 <= r < n implies out@[r] == ordered_by(v@, before@)[r] by {
            let j = index_at(before@, n as int, r);
            assert(ranks@[j] as int == r);
        }
        assert(out@ =~= ordered_by(v@, before@));
    }
    out
}

} // verus!
