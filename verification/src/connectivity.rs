//! Connectivity in an undirected graph over integers, stated with walks.
//!
//! Two vertices are linked when a walk leads from one to the other. The lemmas here
//! show that being linked is the least equivalence that holds every edge, and how it
//! grows when one edge is added.

use vstd::prelude::*;

verus! {

/// Whether `edge` joins the vertex at position `k` of `walk` to the next one.
pub open spec fn steps(edge: spec_fn(int, int) -> bool, walk: Seq<int>, k: int) -> bool {
    edge(walk[k], walk[k + 1])
}

/// A walk is a non-empty sequence of vertices in which `edge` joins each vertex to the next.
pub open spec fn is_walk(edge: spec_fn(int, int) -> bool, walk: Seq<int>) -> bool {
    &&& walk.len() > 0
    &&& forall|k: int| 0 <= k < walk.len() - 1 ==> #[trigger] steps(edge, walk, k)
}

/// Whether `walk` starts at `a` and ends at `b`.
pub open spec fn leads(edge: spec_fn(int, int) -> bool, walk: Seq<int>, a: int, b: int) -> bool {
    &&& is_walk(edge, walk)
    &&& walk.first() == a
    &&& walk.last() == b
}

/// Two vertices are linked when some walk leads from the first to the second.
pub open spec fn linked(edge: spec_fn(int, int) -> bool, a: int, b: int) -> bool {
    exists|walk: Seq<int>| #[trigger] leads(edge, walk, a, b)
}

/// Every vertex is linked to itself.
pub proof fn lemma_linked_reflexive(edge: spec_fn(int, int) -> bool, a: int)
    ensures
        linked(edge, a, a),
{
    assert(leads(edge, seq![a], a, a));
}

/// The two ends of an edge are linked.
pub proof fn lemma_linked_edge(edge: spec_fn(int, int) -> bool, a: int, b: int)
    requires
        edge(a, b),
    ensures
        linked(edge, a, b),
{
    let walk = seq![a, b];
    assert(steps(edge, walk, 0));
    assert(leads(edge, walk, a, b));
}

/// Being linked is transitive.
pub proof fn lemma_linked_transitive(edge: spec_fn(int, int) -> bool, a: int, b: int, c: int)
    requires
        linked(edge, a, b),
        linked(edge, b, c),
    ensures
        linked(edge, a, c),
{
    let first = choose|walk: Seq<int>| #[trigger] leads(edge, walk, a, b);
    let second = choose|walk: Seq<int>| #[trigger] leads(edge, walk, b, c);
    let joined = first + second.drop_first();
    assert forall|k: int| 0 <= k < joined.len() - 1 implies #[trigger] steps(edge, joined, k) by {
        if k < first.len() - 1 {
            assert(steps(edge, first, k));
        } else {
            assert(steps(edge, second, k - first.len() + 1));
        }
    }
    assert(leads(edge, joined, a, c));
}

/// Where every edge can be walked both ways, being linked is symmetric.
pub proof fn lemma_linked_symmetric(edge: spec_fn(int, int) -> bool, a: int, b: int)
    requires
        forall|x: int, y: int| #[trigger] edge(x, y) ==> edge(y, x),
        linked(edge, a, b),
    ensures
        linked(edge, b, a),
{
    let walk = choose|walk: Seq<int>| #[trigger] leads(edge, walk, a, b);
    let back = walk.reverse();
    assert forall|k: int| 0 <= k < back.len() - 1 implies #[trigger] steps(edge, back, k) by {
        assert(steps(edge, walk, walk.len() - 2 - k));
    }
    assert(leads(edge, back, b, a));
}

/// A graph with more edges links at least the same vertices.
pub proof fn lemma_linked_monotone(
    fewer: spec_fn(int, int) -> bool,
    more: spec_fn(int, int) -> bool,
    a: int,
    b: int,
)
    requires
        forall|x: int, y: int| #[trigger] fewer(x, y) ==> more(x, y),
        linked(fewer, a, b),
    ensures
        linked(more, a, b),
{
    let walk = choose|walk: Seq<int>| #[trigger] leads(fewer, walk, a, b);
    assert forall|k: int| 0 <= k < walk.len() - 1 implies #[trigger] steps(more, walk, k) by {
        assert(steps(fewer, walk, k));
    }
    assert(leads(more, walk, a, b));
}

/// Whether `within` is reflexive and transitive and holds of both ends of every edge.
pub open spec fn encloses(
    within: spec_fn(int, int) -> bool,
    edge: spec_fn(int, int) -> bool,
) -> bool {
    &&& forall|x: int| #[trigger] within(x, x)
    &&& forall|x: int, y: int, z: int|
        #[trigger] within(x, y) && #[trigger] within(y, z) ==> within(x, z)
    &&& forall|x: int, y: int| #[trigger] edge(x, y) ==> within(x, y)
}

/// Being linked is the least such relation: whatever encloses the edges holds of
/// every two linked vertices.
pub proof fn lemma_linked_least(
    edge: spec_fn(int, int) -> bool,
    within: spec_fn(int, int) -> bool,
    a: int,
    b: int,
)
    requires
        encloses(within, edge),
        linked(edge, a, b),
    ensures
        within(a, b),
{
    let walk = choose|walk: Seq<int>| #[trigger] leads(edge, walk, a, b);
    lemma_walk_within(edge, within, walk);
}

proof fn lemma_walk_within(
    edge: spec_fn(int, int) -> bool,
    within: spec_fn(int, int) -> bool,
    walk: Seq<int>,
)
    requires
        encloses(within, edge),
        is_walk(edge, walk),
    ensures
        within(walk.first(), walk.last()),
    decreases walk.len(),
{
    if walk.len() > 1 {
        let shorter = walk.drop_last();
        assert forall|k: int| 0 <= k < shorter.len() - 1 implies #[trigger] steps(
            edge,
            shorter,
            k,
        ) by {
            assert(steps(edge, walk, k));
        }
        lemma_walk_within(edge, within, shorter);
        assert(steps(edge, walk, walk.len() - 2));
        assert(within(shorter.last(), walk.last()));
    }
}

/// A graph without edges links each vertex to itself only.
pub proof fn lemma_linked_without_edges(edge: spec_fn(int, int) -> bool, a: int, b: int)
    requires
        forall|x: int, y: int| !#[trigger] edge(x, y),
    ensures
        linked(edge, a, b) <==> a == b,
{
    if linked(edge, a, b) {
        let walk = choose|walk: Seq<int>| #[trigger] leads(edge, walk, a, b);
        if walk.len() > 1 {
            assert(steps(edge, walk, 0));
        }
    } else if a == b {
        lemma_linked_reflexive(edge, a);
    }
}

/// What one more edge between `x` and `y` adds: two vertices are linked afterwards when
/// they were linked before, or when one was linked to `x` and the other to `y`.
pub open spec fn linked_through(
    edge: spec_fn(int, int) -> bool,
    x: int,
    y: int,
    a: int,
    b: int,
) -> bool {
    ||| linked(edge, a, b)
    ||| (linked(edge, a, x) && linked(edge, y, b))
    ||| (linked(edge, a, y) && linked(edge, x, b))
}

/// Whether `more` has the edges of `fewer` and, in both directions, the one between `x` and `y`.
pub open spec fn adds_edge(
    fewer: spec_fn(int, int) -> bool,
    more: spec_fn(int, int) -> bool,
    x: int,
    y: int,
) -> bool {
    forall|u: int, v: int| #[trigger]
        more(u, v) <==> (fewer(u, v) || (u == x && v == y) || (u == y && v == x))
}

/// Adding the edge between `x` and `y` links exactly what `linked_through` says.
pub proof fn lemma_linked_add_edge(
    fewer: spec_fn(int, int) -> bool,
    more: spec_fn(int, int) -> bool,
    x: int,
    y: int,
    a: int,
    b: int,
)
    requires
        adds_edge(fewer, more, x, y),
    ensures
        linked(more, a, b) <==> linked_through(fewer, x, y, a, b),
{
    if linked(more, a, b) {
        let walk = choose|walk: Seq<int>| #[trigger] leads(more, walk, a, b);
        lemma_walk_through(fewer, more, x, y, walk);
    }
    if linked_through(fewer, x, y, a, b) {
        assert(more(x, y) && more(y, x));
        lemma_linked_edge(more, x, y);
        lemma_linked_edge(more, y, x);
        if linked(fewer, a, b) {
            lemma_linked_monotone(fewer, more, a, b);
        } else if linked(fewer, a, x) && linked(fewer, y, b) {
            lemma_linked_monotone(fewer, more, a, x);
            lemma_linked_monotone(fewer, more, y, b);
            lemma_linked_transitive(more, a, x, y);
            lemma_linked_transitive(more, a, y, b);
        } else {
            lemma_linked_monotone(fewer, more, a, y);
            lemma_linked_monotone(fewer, more, x, b);
            lemma_linked_transitive(more, a, y, x);
            lemma_linked_transitive(more, a, x, b);
        }
    }
}

proof fn lemma_walk_through(
    fewer: spec_fn(int, int) -> bool,
    more: spec_fn(int, int) -> bool,
    x: int,
    y: int,
    walk: Seq<int>,
)
    requires
        adds_edge(fewer, more, x, y),
        is_walk(more, walk),
    ensures
        linked_through(fewer, x, y, walk.first(), walk.last()),
    decreases walk.len(),
{
    let a = walk.first();
    let b = walk.last();
    if walk.len() == 1 {
        lemma_linked_reflexive(fewer, a);
    } else {
        let shorter = walk.drop_last();
        let m = shorter.last();
        assert forall|k: int| 0 <= k < shorter.len() - 1 implies #[trigger] steps(
            more,
            shorter,
            k,
        ) by {
            assert(steps(more, walk, k));
        }
        lemma_walk_through(fewer, more, x, y, shorter);
        assert(steps(more, walk, walk.len() - 2));
        assert(more(m, b));
        lemma_linked_reflexive(fewer, x);
        lemma_linked_reflexive(fewer, y);
        if fewer(m, b) {
            lemma_linked_edge(fewer, m, b);
            if linked(fewer, a, m) {
                lemma_linked_transitive(fewer, a, m, b);
            } else if linked(fewer, a, x) && linked(fewer, y, m) {
                lemma_linked_transitive(fewer, y, m, b);
            } else {
                lemma_linked_transitive(fewer, x, m, b);
            }
        } else if m == x && b == y {
            if linked(fewer, a, x) && linked(fewer, y, m) {
            } else if linked(fewer, a, y) && linked(fewer, x, m) {
            }
        } else {
            if linked(fewer, a, x) && linked(fewer, y, m) {
            } else if linked(fewer, a, y) && linked(fewer, x, m) {
            }
        }
    }
}

} // verus!
