//! Walks in a graph given by its edge relation, and what can be reached along
//! them. Specification and proof only.

use vstd::prelude::*;

verus! {

/// A non-empty sequence of vertices in which every vertex has an edge to the next.
pub open spec fn is_walk<V>(edge: spec_fn(V, V) -> bool, p: Seq<V>) -> bool {
    &&& p.len() >= 1
    &&& forall|k: int| 0 <= k < p.len() - 1 ==> edge(#[trigger] p[k], p[k + 1])
}

/// A walk leads from `a` to `b`.
pub open spec fn reaches<V>(edge: spec_fn(V, V) -> bool, a: V, b: V) -> bool {
    exists|p: Seq<V>| #[trigger] is_walk(edge, p) && p.first() == a && p.last() == b
}

/// Both directions of an edge are present or absent together.
pub open spec fn symmetric<V>(edge: spec_fn(V, V) -> bool) -> bool {
    forall|x: V, y: V| #[trigger] edge(x, y) ==> edge(y, x)
}

/// Every edge of `small` is an edge of `large`.
pub open spec fn included<V>(small: spec_fn(V, V) -> bool, large: spec_fn(V, V) -> bool) -> bool {
    forall|x: V, y: V| #[trigger] small(x, y) ==> large(x, y)
}

/// Every vertex reaches itself.
pub proof fn lemma_reaches_self<V>(edge: spec_fn(V, V) -> bool, a: V)
    ensures
        reaches(edge, a, a),
{
    assert(is_walk(edge, seq![a]));
}

/// A walk may be extended by one edge.
pub proof fn lemma_reaches_step<V>(edge: spec_fn(V, V) -> bool, a: V, b: V, c: V)
    requires
        reaches(edge, a, b),
        edge(b, c),
    ensures
        reaches(edge, a, c),
{
    let p = choose|p: Seq<V>| #[trigger] is_walk(edge, p) && p.first() == a && p.last() == b;
    let q = p.push(c);
    assert forall|k: int| 0 <= k < q.len() - 1 implies edge(#[trigger] q[k], q[k + 1]) by {
        if k < p.len() - 1 {
            assert(edge(p[k], p[k + 1]));
        }
    }
    assert(is_walk(edge, q));
}

/// Two walks that meet may be joined.
pub proof fn lemma_reaches_trans<V>(edge: spec_fn(V, V) -> bool, a: V, b: V, c: V)
    requires
        reaches(edge, a, b),
        reaches(edge, b, c),
    ensures
        reaches(edge, a, c),
{
    let p = choose|p: Seq<V>| #[trigger] is_walk(edge, p) && p.first() == a && p.last() == b;
    let q = choose|q: Seq<V>| #[trigger] is_walk(edge, q) && q.first() == b && q.last() == c;
    let r = p + q.skip(1);
    assert forall|k: int| 0 <= k < r.len() - 1 implies edge(#[trigger] r[k], r[k + 1]) by {
        if k < p.len() - 1 {
            assert(edge(p[k], p[k + 1]));
        } else {
            let m = k - p.len() + 1;
            assert(edge(q[m], q[m + 1]));
        }
    }
    assert(is_walk(edge, r));
}

/// Under a symmetric edge relation a walk may be taken backwards.
pub proof fn lemma_reaches_back<V>(edge: spec_fn(V, V) -> bool, a: V, b: V)
    requires
        symmetric(edge),
        reaches(edge, a, b),
    ensures
        reaches(edge, b, a),
{
    let p = choose|p: Seq<V>| #[trigger] is_walk(edge, p) && p.first() == a && p.last() == b;
    let r = p.reverse();
    assert forall|k: int| 0 <= k < r.len() - 1 implies edge(#[trigger] r[k], r[k + 1]) by {
        let m = p.len() - 2 - k;
        assert(edge(p[m], p[m + 1]));
    }
    assert(is_walk(edge, r));
}

/// A walk stays a walk when edges are added.
pub proof fn lemma_reaches_more<V>(
    small: spec_fn(V, V) -> bool,
    large: spec_fn(V, V) -> bool,
    a: V,
    b: V,
)
    requires
        included(small, large),
        reaches(small, a, b),
    ensures
        reaches(large, a, b),
{
    let p = choose|p: Seq<V>| #[trigger] is_walk(small, p) && p.first() == a && p.last() == b;
    assert forall|k: int| 0 <= k < p.len() - 1 implies large(#[trigger] p[k], p[k + 1]) by {
        assert(small(p[k], p[k + 1]));
    }
    assert(is_walk(large, p));
}

/// A vertex that reaches another vertex has an edge that leaves it; the
/// result is the vertex at the far end of such an edge.
pub proof fn lemma_reaches_leaves<V>(edge: spec_fn(V, V) -> bool, a: V, b: V) -> (c: V)
    requires
        reaches(edge, a, b),
        a != b,
    ensures
        edge(a, c),
{
    let p = choose|p: Seq<V>| #[trigger] is_walk(edge, p) && p.first() == a && p.last() == b;
    assert(edge(p[0], p[1]));
    p[1]
}

} // verus!
