//! Ordering and grouping of small records, done by itertools.

use vstd::prelude::*;

verus! {

/// Lexicographic order on integer triples.
pub open spec fn triple_le(a: (u64, u64, u64), b: (u64, u64, u64)) -> bool {
    ||| a.0 < b.0
    ||| (a.0 == b.0 && a.1 < b.1)
    ||| (a.0 == b.0 && a.1 == b.1 && a.2 <= b.2)
}

/// Relies on itertools' `sorted_unstable`: returns the same elements in
/// ascending order (integer triples order lexicographically).
#[verifier::external_body]
pub(crate) fn sort_triples(v: Vec<(u64, u64, u64)>) -> (r: Vec<(u64, u64, u64)>)
    ensures
        r@.len() == v@.len(),
        r@.to_multiset() == v@.to_multiset(),
        forall|i: int, j: int| 0 <= i < j < r@.len() ==> triple_le(r@[i], r@[j]),
        forall|t: (u64, u64, u64)| r@.contains(t) <==> v@.contains(t),
        (forall|i: int, j: int| 0 <= i < j < v@.len() ==> v@[i] != v@[j]) ==> (forall|i: int, j: int|
            0 <= i < j < r@.len() ==> r@[i] != r@[j]),
{
    itertools::Itertools::sorted_unstable(v.into_iter()).collect()
}

/// Two sequences of integer triples sorted in lexicographic order and equal
/// as multisets are equal: the sorted arrangement of a collection is unique.
pub proof fn lemma_triple_sort_unique(x: Seq<(u64, u64, u64)>, y: Seq<(u64, u64, u64)>)
    requires
        forall|a: int, b: int| 0 <= a < b < x.len() ==> triple_le(x[a], x[b]),
        forall|a: int, b: int| 0 <= a < b < y.len() ==> triple_le(y[a], y[b]),
        x.to_multiset() == y.to_multiset(),
    ensures
        x == y,
{
    let leq = |a: (u64, u64, u64), b: (u64, u64, u64)| triple_le(a, b);
    assert(vstd::relations::total_ordering(leq)) by {
        assert forall|a: (u64, u64, u64)| #[trigger] leq(a, a) by {}
        assert forall|a: (u64, u64, u64), b: (u64, u64, u64)| #[trigger] leq(a, b) && leq(b, a) implies a
            == b by {}
        assert forall|a: (u64, u64, u64), b: (u64, u64, u64), c: (u64, u64, u64)|
            #[trigger] leq(a, b) && #[trigger] leq(b, c) implies leq(a, c) by {}
        assert forall|a: (u64, u64, u64), b: (u64, u64, u64)| #![trigger leq(a, b)] true implies leq(
            a,
            b,
        ) || leq(b, a) by {}
    }
    assert(vstd::relations::sorted_by(x, leq)) by {
        assert forall|i: int, j: int| 0 <= i < j < x.len() implies #[trigger] leq(x[i], x[j]) by {}
    }
    assert(vstd::relations::sorted_by(y, leq)) by {
        assert forall|i: int, j: int| 0 <= i < j < y.len() implies #[trigger] leq(y[i], y[j]) by {}
    }
    vstd::seq_lib::lemma_sorted_unique(x, y, leq);
    assert(x =~= y);
}

/// The sorted arrangement of a collection of integer triples (well defined,
/// since that arrangement is unique).
pub open spec fn sorted_triples(s: Seq<(u64, u64, u64)>) -> Seq<(u64, u64, u64)> {
    choose|t: Seq<(u64, u64, u64)>|
        t.to_multiset() == s.to_multiset() && (forall|a: int, b: int|
            0 <= a < b < t.len() ==> triple_le(t[a], t[b]))
}

/// What `sorted_triples` names is the one sorted arrangement.
pub proof fn lemma_sorted_triples_is(s: Seq<(u64, u64, u64)>, t: Seq<(u64, u64, u64)>)
    requires
        t.to_multiset() == s.to_multiset(),
        forall|a: int, b: int| 0 <= a < b < t.len() ==> triple_le(t[a], t[b]),
    ensures
        sorted_triples(s) == t,
{
    assert(exists|t2: Seq<(u64, u64, u64)>|
        t2.to_multiset() == s.to_multiset() && (forall|a: int, b: int|
            0 <= a < b < t2.len() ==> triple_le(t2[a], t2[b]))) by {
        assert(t.to_multiset() == s.to_multiset() && (forall|a: int, b: int|
            0 <= a < b < t.len() ==> triple_le(t[a], t[b])));
    }
    lemma_triple_sort_unique(sorted_triples(s), t);
}

/// The second components of the pairs in `s` whose first component is `k`,
/// in order.
pub open spec fn group_of(s: Seq<(u64, u64)>, k: u64) -> Seq<u64> {
    s.filter(|p: (u64, u64)| p.0 == k).map_values(|p: (u64, u64)| p.1)
}

/// Relies on itertools' `into_group_map`: gathers the second components by
/// first component, keeping per-key encounter order. Key order in the result
/// follows a hash map walk and is therefore arbitrary.
#[verifier::external_body]
pub(crate) fn group_pairs(v: Vec<(u64, u64)>) -> (r: Vec<(u64, Vec<u64>)>)
    ensures
        forall|i: int, j: int| 0 <= i < j < r@.len() ==> r@[i].0 != r@[j].0,
        forall|i: int|
            0 <= i < r@.len() ==> (#[trigger] r@[i]).1@ == group_of(v@, r@[i].0) && r@[i].1@.len()
                > 0,
        forall|k: u64|
            #[trigger] group_of(v@, k).len() > 0 ==> exists|i: int|
                0 <= i < r@.len() && r@[i].0 == k,
{
    itertools::Itertools::into_group_map(v.into_iter()).into_iter().collect()
}

} // verus!
