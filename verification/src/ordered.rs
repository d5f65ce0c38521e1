use vstd::prelude::*;
use std::collections::BTreeMap;
use vstd::std_specs::iter::IteratorSpec;

verus! {

broadcast use {vstd::std_specs::btree::group_btree_axioms, vstd::laws_cmp::group_laws_cmp};

/// Whether a key sequence is strictly increasing.
pub open spec fn strictly_increasing(s: Seq<u32>) -> bool {
    forall|i: int, j: int| 0 <= i < j < s.len() ==> s[i] < s[j]
}

/// Whether `s` lists the keys of `m` in increasing order.
pub open spec fn is_key_order<V>(m: Map<u32, V>, s: Seq<u32>) -> bool {
    &&& strictly_increasing(s)
    &&& s.to_set() == m.dom()
}

/// The keys of a map in increasing order (the order in which a `BTreeMap` is walked).
pub open spec fn key_order<V>(m: Map<u32, V>) -> Seq<u32> {
    choose|s: Seq<u32>| is_key_order(m, s)
}

/// Two strictly increasing sequences with the same elements are equal.
pub proof fn lemma_increasing_unique(a: Seq<u32>, b: Seq<u32>)
    requires
        strictly_increasing(a),
        strictly_increasing(b),
        a.to_set() == b.to_set(),
    ensures
        a == b,
    decreases a.len() + b.len(),
{
    if a.len() == 0 {
        if b.len() > 0 {
            assert(a.to_set().contains(b[0]));
        }
        assert(a =~= b);
    } else if b.len() == 0 {
        assert(b.to_set().contains(a[0]));
    } else {
        // the smallest elements agree
        assert(b.to_set().contains(a[0]));
        assert(a.to_set().contains(b[0]));
        let ia = choose|i: int| 0 <= i < a.len() && a[i] == b[0];
        let ib = choose|i: int| 0 <= i < b.len() && b[i] == a[0];
        assert(a[0] <= a[ia]);
        assert(b[0] <= b[ib]);
        assert(a[0] == b[0]);
        let a1 = a.drop_first();
        let b1 = b.drop_first();
        assert forall|x: u32| a1.to_set().contains(x) implies b1.to_set().contains(x) by {
            let i = choose|i: int| 0 <= i < a1.len() && a1[i] == x;
            assert(a.to_set().contains(x));
            let j = choose|j: int| 0 <= j < b.len() && b[j] == x;
            assert(x > a[0]);
            assert(j != 0);
            assert(b1[j - 1] == x);
        }
        assert forall|x: u32| b1.to_set().contains(x) implies a1.to_set().contains(x) by {
            let i = choose|i: int| 0 <= i < b1.len() && b1[i] == x;
            assert(b.to_set().contains(x));
            let j = choose|j: int| 0 <= j < a.len() && a[j] == x;
            assert(x > b[0]);
            assert(j != 0);
            assert(a1[j - 1] == x);
        }
        assert(a1.to_set() =~= b1.to_set());
        lemma_increasing_unique(a1, b1);
        assert(a.len() == b.len());
        assert forall|i: int| 0 <= i < a.len() implies a[i] == b[i] by {
            if i > 0 {
                assert(a[i] == a1[i - 1]);
                assert(b[i] == b1[i - 1]);
            }
        }
        assert(a =~= b);
    }
}

/// Maps with the same keys have the same key order.
pub proof fn lemma_key_order_same_dom<V, W>(m1: Map<u32, V>, m2: Map<u32, W>, s: Seq<u32>)
    requires
        is_key_order(m1, s),
        m1.dom() == m2.dom(),
    ensures
        key_order(m2) == s,
{
    assert(is_key_order(m2, s));
    lemma_increasing_unique(key_order(m2), s);
}

/// The walk order of a map with integer keys is strictly increasing.
proof fn lemma_walk_order_increasing(ks: Seq<u32>)
    requires
        vstd::std_specs::btree::increasing_seq(ks),
    ensures
        strictly_increasing(ks),
{
    assert(vstd::laws_cmp::obeys_cmp::<u32>());
    assert forall|i: int, j: int| 0 <= i < j < ks.len() implies ks[i] < ks[j] by {
        assert(vstd::std_specs::cmp::OrdSpec::cmp_spec(&ks[i], &ks[j]) is Less);
    }
}

/// The keys of `m` in increasing order.
pub fn keys_in_order<V>(m: &BTreeMap<u32, V>) -> (r: Vec<u32>)
    ensures
        r@ == key_order(m@),
        is_key_order(m@, r@),
        r@.len() == m@.dom().len(),
        forall|i: int| 0 <= i < r@.len() ==> m@.contains_key(#[trigger] r@[i]),
{
    let iter = m.iter();
    let ghost v = iter.remaining();
    let ghost ks = v.map_values(|kv: (&u32, &V)| *kv.0);
    let mut out: Vec<u32> = Vec::new();
    for (k, _value) in it: iter
        invariant
            it.seq() == v,
            out@ == ks.take(it.index() as int),
            ks == v.map_values(|kv: (&u32, &V)| *kv.0),
    {
        let ghost before = out@;
        out.push(*k);
        proof {
            assert(out@ =~= before.push(*k));
        }
    }
    proof {
        assert(out@ =~= ks);
        lemma_walk_order_increasing(ks);
        assert forall|x: u32| ks.to_set().contains(x) <==> m@.dom().contains(x) by {
            if ks.to_set().contains(x) {
                let i = choose|i: int| 0 <= i < ks.len() && ks[i] == x;
                assert(m@.contains_key(*v[i].0));
            }
            if m@.dom().contains(x) {
                assert(v.contains((&x, &m@[x])));
                let i = choose|i: int| 0 <= i < v.len() && v[i] == (&x, &m@[x]);
                assert(ks[i] == x);
            }
        }
        assert(ks.to_set() =~= m@.dom());
        assert(is_key_order(m@, ks));
        lemma_increasing_unique(key_order(m@), ks);
        assert forall|i: int| 0 <= i < ks.len() implies m@.contains_key(#[trigger] ks[i]) by {
            assert(m@.contains_key(*v[i].0));
        }
        ks.unique_seq_to_set();
    }
    out
}

/// Lexicographic order on pairs of ids (the order of a `BTreeMap` keyed by pairs).
pub open spec fn pair_lt(a: (u32, u32), b: (u32, u32)) -> bool {
    a.0 < b.0 || (a.0 == b.0 && a.1 < b.1)
}

/// Whether a sequence of pairs is strictly increasing in lexicographic order.
pub open spec fn pairs_increasing(s: Seq<(u32, u32)>) -> bool {
    forall|i: int, j: int| 0 <= i < j < s.len() ==> pair_lt(s[i], s[j])
}

/// Whether `s` lists the keys of `m` in increasing lexicographic order.
pub open spec fn is_pair_key_order<V>(m: Map<(u32, u32), V>, s: Seq<(u32, u32)>) -> bool {
    &&& pairs_increasing(s)
    &&& s.to_set() == m.dom()
}

/// The keys of a pair-keyed map in increasing lexicographic order.
pub open spec fn pair_key_order<V>(m: Map<(u32, u32), V>) -> Seq<(u32, u32)> {
    choose|s: Seq<(u32, u32)>| is_pair_key_order(m, s)
}

/// Two strictly increasing pair sequences with the same elements are equal.
pub proof fn lemma_pairs_increasing_unique(a: Seq<(u32, u32)>, b: Seq<(u32, u32)>)
    requires
        pairs_increasing(a),
        pairs_increasing(b),
        a.to_set() == b.to_set(),
    ensures
        a == b,
    decreases a.len() + b.len(),
{
    if a.len() == 0 {
        if b.len() > 0 {
            assert(a.to_set().contains(b[0]));
        }
        assert(a =~= b);
    } else if b.len() == 0 {
        assert(b.to_set().contains(a[0]));
    } else {
        assert(b.to_set().contains(a[0]));
        assert(a.to_set().contains(b[0]));
        let ia = choose|i: int| 0 <= i < a.len() && a[i] == b[0];
        let ib = choose|i: int| 0 <= i < b.len() && b[i] == a[0];
        if ia != 0 {
            assert(pair_lt(a[0], a[ia]));
        }
        if ib != 0 {
            assert(pair_lt(b[0], b[ib]));
        }
        assert(a[0] == b[0]);
        let a1 = a.drop_first();
        let b1 = b.drop_first();
        assert forall|x: (u32, u32)| a1.to_set().contains(x) implies b1.to_set().contains(x) by {
            let i = choose|i: int| 0 <= i < a1.len() && a1[i] == x;
            assert(a.to_set().contains(x));
            let j = choose|j: int| 0 <= j < b.len() && b[j] == x;
            assert(pair_lt(a[0], a[i + 1]));
            assert(j != 0);
            assert(b1[j - 1] == x);
        }
        assert forall|x: (u32, u32)| b1.to_set().contains(x) implies a1.to_set().contains(x) by {
            let i = choose|i: int| 0 <= i < b1.len() && b1[i] == x;
            assert(b.to_set().contains(x));
            let j = choose|j: int| 0 <= j < a.len() && a[j] == x;
            assert(pair_lt(b[0], b[i + 1]));
            assert(j != 0);
            assert(a1[j - 1] == x);
        }
        assert(a1.to_set() =~= b1.to_set());
        lemma_pairs_increasing_unique(a1, b1);
        assert(a.len() == b.len());
        assert forall|i: int| 0 <= i < a.len() implies a[i] == b[i] by {
            if i > 0 {
                assert(a[i] == a1[i - 1]);
                assert(b[i] == b1[i - 1]);
            }
        }
        assert(a =~= b);
    }
}

/// Pair-keyed maps with the same keys have the same key order.
pub proof fn lemma_pair_key_order_same_dom<V, W>(m1: Map<(u32, u32), V>, m2: Map<(u32, u32), W>)
    requires
        m1.dom() == m2.dom(),
        is_pair_key_order(m1, pair_key_order(m1)),
    ensures
        pair_key_order(m2) == pair_key_order(m1),
{
    let s = pair_key_order(m1);
    assert(is_pair_key_order(m2, s));
    lemma_pairs_increasing_unique(pair_key_order(m2), s);
}

/// A strictly increasing sequence of pairs has no duplicates.
pub proof fn lemma_pairs_no_duplicates(s: Seq<(u32, u32)>)
    requires
        pairs_increasing(s),
    ensures
        s.no_duplicates(),
{
    assert forall|i: int, j: int| 0 <= i < s.len() && 0 <= j < s.len() && i != j implies s[i] != s[j] by {
        if i < j {
            assert(pair_lt(s[i], s[j]));
        } else {
            assert(pair_lt(s[j], s[i]));
        }
    }
}

/// The walk order of a map keyed by pairs is lexicographically increasing.
proof fn lemma_pair_walk_order_increasing(ks: Seq<(u32, u32)>)
    requires
        vstd::std_specs::btree::increasing_seq(ks),
    ensures
        pairs_increasing(ks),
{
    assert(vstd::laws_cmp::obeys_cmp::<(u32, u32)>());
    assert forall|i: int, j: int| 0 <= i < j < ks.len() implies pair_lt(ks[i], ks[j]) by {
        assert(vstd::std_specs::cmp::OrdSpec::cmp_spec(&ks[i], &ks[j]) is Less);
    }
}

/// The keys of a pair-keyed map in increasing lexicographic order.
pub fn pair_keys_in_order<V>(m: &BTreeMap<(u32, u32), V>) -> (r: Vec<(u32, u32)>)
    ensures
        r@ == pair_key_order(m@),
        is_pair_key_order(m@, r@),
        r@.len() == m@.dom().len(),
        forall|i: int| 0 <= i < r@.len() ==> m@.contains_key(#[trigger] r@[i]),
{
    let iter = m.iter();
    let ghost v = iter.remaining();
    let ghost ks = v.map_values(|kv: (&(u32, u32), &V)| *kv.0);
    let mut out: Vec<(u32, u32)> = Vec::new();
    for (k, _value) in it: iter
        invariant
            it.seq() == v,
            out@ == ks.take(it.index() as int),
            ks == v.map_values(|kv: (&(u32, u32), &V)| *kv.0),
    {
        let ghost before = out@;
        out.push(*k);
        proof {
            assert(out@ =~= before.push(*k));
        }
    }
    proof {
        assert(out@ =~= ks);
        lemma_pair_walk_order_increasing(ks);
        assert forall|x: (u32, u32)| ks.to_set().contains(x) <==> m@.dom().contains(x) by {
            if ks.to_set().contains(x) {
                let i = choose|i: int| 0 <= i < ks.len() && ks[i] == x;
                assert(m@.contains_key(*v[i].0));
            }
            if m@.dom().contains(x) {
                assert(v.contains((&x, &m@[x])));
                let i = choose|i: int| 0 <= i < v.len() && v[i] == (&x, &m@[x]);
                assert(ks[i] == x);
            }
        }
        assert(ks.to_set() =~= m@.dom());
        assert(is_pair_key_order(m@, ks));
        lemma_pairs_increasing_unique(pair_key_order(m@), ks);
        assert forall|i: int| 0 <= i < ks.len() implies m@.contains_key(#[trigger] ks[i]) by {
            assert(m@.contains_key(*v[i].0));
        }
        ks.unique_seq_to_set();
    }
    out
}

/// Lexicographic order on triples of ids (the order of a `BTreeMap` keyed by triples).
pub open spec fn triple_lt(a: (u32, u32, u32), b: (u32, u32, u32)) -> bool {
    a.0 < b.0 || (a.0 == b.0 && a.1 < b.1) || (a.0 == b.0 && a.1 == b.1 && a.2 < b.2)
}

/// Whether a sequence of triples is strictly increasing in lexicographic order.
pub open spec fn triples_increasing(s: Seq<(u32, u32, u32)>) -> bool {
    forall|i: int, j: int| 0 <= i < j < s.len() ==> triple_lt(s[i], s[j])
}

/// Whether `s` lists the keys of `m` in increasing lexicographic order.
pub open spec fn is_triple_key_order<V>(m: Map<(u32, u32, u32), V>, s: Seq<(u32, u32, u32)>) -> bool {
    &&& triples_increasing(s)
    &&& s.to_set() == m.dom()
}

/// The keys of a triple-keyed map in increasing lexicographic order.
pub open spec fn triple_key_order<V>(m: Map<(u32, u32, u32), V>) -> Seq<(u32, u32, u32)> {
    choose|s: Seq<(u32, u32, u32)>| is_triple_key_order(m, s)
}

/// Two strictly increasing triple sequences with the same elements are equal.
pub proof fn lemma_triples_increasing_unique(a: Seq<(u32, u32, u32)>, b: Seq<(u32, u32, u32)>)
    requires
        triples_increasing(a),
        triples_increasing(b),
        a.to_set() == b.to_set(),
    ensures
        a == b,
    decreases a.len() + b.len(),
{
    if a.len() == 0 {
        if b.len() > 0 {
            assert(a.to_set().contains(b[0]));
        }
        assert(a =~= b);
    } else if b.len() == 0 {
        assert(b.to_set().contains(a[0]));
    } else {
        assert(b.to_set().contains(a[0]));
        assert(a.to_set().contains(b[0]));
        let ia = choose|i: int| 0 <= i < a.len() && a[i] == b[0];
        let ib = choose|i: int| 0 <= i < b.len() && b[i] == a[0];
        if ia != 0 {
            assert(triple_lt(a[0], a[ia]));
        }
        if ib != 0 {
            assert(triple_lt(b[0], b[ib]));
        }
        assert(a[0] == b[0]);
        let a1 = a.drop_first();
        let b1 = b.drop_first();
        assert forall|x: (u32, u32, u32)| a1.to_set().contains(x) implies b1.to_set().contains(x) by {
            let i = choose|i: int| 0 <= i < a1.len() && a1[i] == x;
            assert(a.to_set().contains(x));
            let j = choose|j: int| 0 <= j < b.len() && b[j] == x;
            assert(triple_lt(a[0], a[i + 1]));
            assert(j != 0);
            assert(b1[j - 1] == x);
        }
        assert forall|x: (u32, u32, u32)| b1.to_set().contains(x) implies a1.to_set().contains(x) by {
            let i = choose|i: int| 0 <= i < b1.len() && b1[i] == x;
            assert(b.to_set().contains(x));
            let j = choose|j: int| 0 <= j < a.len() && a[j] == x;
            assert(triple_lt(b[0], b[i + 1]));
            assert(j != 0);
            assert(a1[j - 1] == x);
        }
        assert(a1.to_set() =~= b1.to_set());
        lemma_triples_increasing_unique(a1, b1);
        assert(a.len() == b.len());
        assert forall|i: int| 0 <= i < a.len() implies a[i] == b[i] by {
            if i > 0 {
                assert(a[i] == a1[i - 1]);
                assert(b[i] == b1[i - 1]);
            }
        }
        assert(a =~= b);
    }
}

/// Triple-keyed maps with the same keys have the same key order.
pub proof fn lemma_triple_key_order_same_dom<V, W>(m1: Map<(u32, u32, u32), V>, m2: Map<(u32, u32, u32), W>)
    requires
        m1.dom() == m2.dom(),
        is_triple_key_order(m1, triple_key_order(m1)),
    ensures
        triple_key_order(m2) == triple_key_order(m1),
{
    let s = triple_key_order(m1);
    assert(is_triple_key_order(m2, s));
    lemma_triples_increasing_unique(triple_key_order(m2), s);
}

/// A strictly increasing sequence of triples has no duplicates.
pub proof fn lemma_triples_no_duplicates(s: Seq<(u32, u32, u32)>)
    requires
        triples_increasing(s),
    ensures
        s.no_duplicates(),
{
    assert forall|i: int, j: int| 0 <= i < s.len() && 0 <= j < s.len() && i != j implies s[i] != s[j] by {
        if i < j {
            assert(triple_lt(s[i], s[j]));
        } else {
            assert(triple_lt(s[j], s[i]));
        }
    }
}

/// The walk order of a map keyed by triples is lexicographically increasing.
proof fn lemma_triple_walk_order_increasing(ks: Seq<(u32, u32, u32)>)
    requires
        vstd::std_specs::btree::increasing_seq(ks),
    ensures
        triples_increasing(ks),
{
    assert(vstd::laws_cmp::obeys_cmp::<(u32, u32, u32)>());
    assert forall|i: int, j: int| 0 <= i < j < ks.len() implies triple_lt(ks[i], ks[j]) by {
        assert(vstd::std_specs::cmp::OrdSpec::cmp_spec(&ks[i], &ks[j]) is Less);
    }
}

/// The keys of a triple-keyed map in increasing lexicographic order.
pub fn triple_keys_in_order<V>(m: &BTreeMap<(u32, u32, u32), V>) -> (r: Vec<(u32, u32, u32)>)
    ensures
        r@ == triple_key_order(m@),
        is_triple_key_order(m@, r@),
        r@.len() == m@.dom().len(),
        forall|i: int| 0 <= i < r@.len() ==> m@.contains_key(#[trigger] r@[i]),
{
    let iter = m.iter();
    let ghost v = iter.remaining();
    let ghost ks = v.map_values(|kv: (&(u32, u32, u32), &V)| *kv.0);
    let mut out: Vec<(u32, u32, u32)> = Vec::new();
    for (k, _value) in it: iter
        invariant
            it.seq() == v,
            out@ == ks.take(it.index() as int),
            ks == v.map_values(|kv: (&(u32, u32, u32), &V)| *kv.0),
    {
        let ghost before = out@;
        out.push(*k);
        proof {
            assert(out@ =~= before.push(*k));
        }
    }
    proof {
        assert(out@ =~= ks);
        lemma_triple_walk_order_increasing(ks);
        assert forall|x: (u32, u32, u32)| ks.to_set().contains(x) <==> m@.dom().contains(x) by {
            if ks.to_set().contains(x) {
                let i = choose|i: int| 0 <= i < ks.len() && ks[i] == x;
                assert(m@.contains_key(*v[i].0));
            }
            if m@.dom().contains(x) {
                assert(v.contains((&x, &m@[x])));
                let i = choose|i: int| 0 <= i < v.len() && v[i] == (&x, &m@[x]);
                assert(ks[i] == x);
            }
        }
        assert(ks.to_set() =~= m@.dom());
        assert(is_triple_key_order(m@, ks));
        lemma_triples_increasing_unique(triple_key_order(m@), ks);
        assert forall|i: int| 0 <= i < ks.len() implies m@.contains_key(#[trigger] ks[i]) by {
            assert(m@.contains_key(*v[i].0));
        }
        ks.unique_seq_to_set();
    }
    out
}

} // verus!
