//! Which vertices a list of edges joins.

use crate::edge::Edge;
use vstd::prelude::*;

verus! {

/// Whether the edges join `u` and `v`, directly or by way of other vertices.
///
/// Without edges a vertex is joined to itself alone. One more edge joins what was
/// joined before, and whatever was joined to one of its ends with whatever was
/// joined to the other. This holds exactly where a walk along the edges leads
/// from `u` to `v` (see `lemma_connected_iff_walk`), and it is the least
/// equivalence that holds between the two ends of every edge (see
/// `lemma_equivalence`, `lemma_edge_connected` and `lemma_connected_least`).
pub open spec fn connected(edges: Seq<Edge>, u: u64, v: u64) -> bool
    decreases edges.len(),
{
    if edges.len() == 0 {
        u == v
    } else {
        let rest = edges.drop_last();
        let e = edges.last();
        ||| connected(rest, u, v)
        ||| connected(rest, u, e.source) && connected(rest, e.destination, v)
        ||| connected(rest, u, e.destination) && connected(rest, e.source, v)
    }
}

/// Whether every edge of `inner` joins two vertices that `outer` joins.
pub open spec fn joined_within(inner: Seq<Edge>, outer: Seq<Edge>) -> bool {
    forall|i: int|
        0 <= i < inner.len() ==> connected(
            outer,
            (#[trigger] inner[i]).source,
            inner[i].destination,
        )
}

/// Every vertex is joined to itself.
pub proof fn lemma_connected_reflexive(edges: Seq<Edge>, u: u64)
    ensures
        connected(edges, u, u),
    decreases edges.len(),
{
    if edges.len() > 0 {
        lemma_connected_reflexive(edges.drop_last(), u);
    }
}

/// Where `u` is joined to `v`, `v` is joined to `u`.
pub proof fn lemma_connected_symmetric(edges: Seq<Edge>, u: u64, v: u64)
    requires
        connected(edges, u, v),
    ensures
        connected(edges, v, u),
    decreases edges.len(),
{
    if edges.len() > 0 {
        let rest = edges.drop_last();
        let e = edges.last();
        if connected(rest, u, v) {
            lemma_connected_symmetric(rest, u, v);
        } else if connected(rest, u, e.source) && connected(rest, e.destination, v) {
            lemma_connected_symmetric(rest, u, e.source);
            lemma_connected_symmetric(rest, e.destination, v);
        } else {
            lemma_connected_symmetric(rest, u, e.destination);
            lemma_connected_symmetric(rest, e.source, v);
        }
    }
}

/// Where `u` is joined to `v` and `v` to `w`, `u` is joined to `w`.
pub proof fn lemma_connected_transitive(edges: Seq<Edge>, u: u64, v: u64, w: u64)
    requires
        connected(edges, u, v),
        connected(edges, v, w),
    ensures
        connected(edges, u, w),
    decreases edges.len(), 0int,
{
    if edges.len() > 0 {
        let rest = edges.drop_last();
        let e = edges.last();
        let s = e.source;
        let d = e.destination;
        lemma_equivalence(rest);
        // How `u` reaches `v`, and how `v` reaches `w`: each either without the
        // last edge, or across it in one of its two directions.
        if connected(rest, u, v) {
            if connected(rest, v, w) {
                lemma_connected_transitive(rest, u, v, w);
            } else if connected(rest, v, s) && connected(rest, d, w) {
                lemma_connected_transitive(rest, u, v, s);
            } else {
                lemma_connected_transitive(rest, u, v, d);
            }
        } else if connected(rest, u, s) && connected(rest, d, v) {
            if connected(rest, v, w) {
                lemma_connected_transitive(rest, d, v, w);
            } else if connected(rest, v, s) && connected(rest, d, w) {
                // u - s, d - v - s, d - w: the edge is crossed once.
            } else {
                // u - s, d - v - d, s - w: the edge is crossed forth and back.
                lemma_connected_transitive(rest, u, s, w);
            }
        } else {
            if connected(rest, v, w) {
                lemma_connected_transitive(rest, s, v, w);
            } else if connected(rest, v, s) && connected(rest, d, w) {
                lemma_connected_transitive(rest, u, d, w);
            } else {
            }
        }
    }
}

/// Being joined is an equivalence: reflexive, symmetric and transitive.
pub proof fn lemma_equivalence(edges: Seq<Edge>)
    ensures
        forall|u: u64| #[trigger] connected(edges, u, u),
        forall|u: u64, v: u64| #[trigger] connected(edges, u, v) ==> connected(edges, v, u),
        forall|u: u64, v: u64, w: u64|
            #[trigger] connected(edges, u, v) && #[trigger] connected(edges, v, w) ==> connected(
                edges,
                u,
                w,
            ),
    decreases edges.len(), 1int,
{
    assert forall|u: u64| #[trigger] connected(edges, u, u) by {
        lemma_connected_reflexive(edges, u);
    }
    assert forall|u: u64, v: u64| #[trigger] connected(edges, u, v) implies connected(
        edges,
        v,
        u,
    ) by {
        lemma_connected_symmetric(edges, u, v);
    }
    assert forall|u: u64, v: u64, w: u64|
        #[trigger] connected(edges, u, v) && #[trigger] connected(edges, v, w) implies connected(
        edges,
        u,
        w,
    ) by {
        lemma_connected_transitive(edges, u, v, w);
    }
}

/// What one more edge joins.
pub proof fn lemma_connected_push(edges: Seq<Edge>, e: Edge, u: u64, v: u64)
    ensures
        connected(edges.push(e), u, v) <==> {
            ||| connected(edges, u, v)
            ||| connected(edges, u, e.source) && connected(edges, e.destination, v)
            ||| connected(edges, u, e.destination) && connected(edges, e.source, v)
        },
{
    assert(edges.push(e).drop_last() =~= edges);
}

/// Every edge of a list joins its own two ends.
pub proof fn lemma_edge_connected(edges: Seq<Edge>, i: int)
    requires
        0 <= i < edges.len(),
    ensures
        connected(edges, edges[i].source, edges[i].destination),
    decreases edges.len(),
{
    if i == edges.len() - 1 {
        lemma_connected_reflexive(edges.drop_last(), edges[i].source);
        lemma_connected_reflexive(edges.drop_last(), edges[i].destination);
    } else {
        lemma_edge_connected(edges.drop_last(), i);
    }
}

/// Being joined by `inner` is the least equivalence that holds between the ends
/// of each edge of `inner`: where `outer` joins the ends of each of these edges,
/// it joins whatever `inner` joins.
pub proof fn lemma_connected_least(inner: Seq<Edge>, outer: Seq<Edge>, u: u64, v: u64)
    requires
        joined_within(inner, outer),
        connected(inner, u, v),
    ensures
        connected(outer, u, v),
    decreases inner.len(),
{
    lemma_equivalence(outer);
    if inner.len() > 0 {
        let rest = inner.drop_last();
        let e = inner.last();
        assert(joined_within(rest, outer)) by {
            assert forall|i: int| 0 <= i < rest.len() implies connected(
                outer,
                (#[trigger] rest[i]).source,
                rest[i].destination,
            ) by {
                assert(rest[i] == inner[i]);
            }
        }
        assert(connected(outer, e.source, e.destination)) by {
            assert(e == inner[inner.len() - 1]);
        }
        if connected(rest, u, v) {
            lemma_connected_least(rest, outer, u, v);
        } else if connected(rest, u, e.source) && connected(rest, e.destination, v) {
            lemma_connected_least(rest, outer, u, e.source);
            lemma_connected_least(rest, outer, e.destination, v);
        } else {
            lemma_connected_least(rest, outer, u, e.destination);
            lemma_connected_least(rest, outer, e.source, v);
        }
    }
}

/// Whether `e` is an edge between `a` and `b`, in one direction or the other.
pub open spec fn joins(e: Edge, a: u64, b: u64) -> bool {
    ||| e.source == a && e.destination == b
    ||| e.source == b && e.destination == a
}

/// Whether the list has an edge between `a` and `b`.
pub open spec fn adjacent(edges: Seq<Edge>, a: u64, b: u64) -> bool {
    exists|i: int| 0 <= i < edges.len() && joins(#[trigger] edges[i], a, b)
}

/// Whether `walk` is a walk from `u` to `v`: a list of vertices that begins with
/// `u` and ends with `v`, each with an edge to the next.
pub open spec fn is_walk(edges: Seq<Edge>, walk: Seq<u64>, u: u64, v: u64) -> bool {
    &&& walk.len() > 0
    &&& walk.first() == u
    &&& walk.last() == v
    &&& forall|i: int| 0 <= i < walk.len() - 1 ==> adjacent(edges, #[trigger] walk[i], walk[i + 1])
}

/// Two walks, the second from a neighbour of the end of the first, make one walk.
proof fn lemma_walk_concat(
    edges: Seq<Edge>,
    first: Seq<u64>,
    second: Seq<u64>,
    u: u64,
    x: u64,
    y: u64,
    v: u64,
)
    requires
        is_walk(edges, first, u, x),
        is_walk(edges, second, y, v),
        adjacent(edges, x, y),
    ensures
        is_walk(edges, first + second, u, v),
{
    let walk = first + second;
    assert forall|i: int| 0 <= i < walk.len() - 1 implies adjacent(
        edges,
        #[trigger] walk[i],
        walk[i + 1],
    ) by {
        if i < first.len() - 1 {
            assert(walk[i] == first[i] && walk[i + 1] == first[i + 1]);
        } else if i == first.len() - 1 {
            assert(walk[i] == x && walk[i + 1] == second[0]);
        } else {
            let j = i - first.len();
            assert(walk[i] == second[j] && walk[i + 1] == second[j + 1]);
        }
    }
}

/// A walk stays a walk where the list gets one more edge.
proof fn lemma_walk_push(edges: Seq<Edge>, e: Edge, walk: Seq<u64>, u: u64, v: u64)
    requires
        is_walk(edges, walk, u, v),
    ensures
        is_walk(edges.push(e), walk, u, v),
{
    let longer = edges.push(e);
    assert forall|i: int| 0 <= i < walk.len() - 1 implies adjacent(
        longer,
        #[trigger] walk[i],
        walk[i + 1],
    ) by {
        let k = choose|k: int|
            0 <= k < edges.len() && joins(#[trigger] edges[k], walk[i], walk[i + 1]);
        assert(longer[k] == edges[k]);
    }
}

/// Where the edges join `u` and `v`, a walk leads from `u` to `v`.
pub proof fn lemma_connected_walk(edges: Seq<Edge>, u: u64, v: u64) -> (walk: Seq<u64>)
    requires
        connected(edges, u, v),
    ensures
        is_walk(edges, walk, u, v),
    decreases edges.len(),
{
    if edges.len() == 0 {
        seq![u]
    } else {
        let rest = edges.drop_last();
        let e = edges.last();
        assert(edges =~= rest.push(e));
        if connected(rest, u, v) {
            let walk = lemma_connected_walk(rest, u, v);
            lemma_walk_push(rest, e, walk, u, v);
            walk
        } else {
            let (x, y) = if connected(rest, u, e.source) && connected(rest, e.destination, v) {
                (e.source, e.destination)
            } else {
                (e.destination, e.source)
            };
            let first = lemma_connected_walk(rest, u, x);
            let second = lemma_connected_walk(rest, y, v);
            lemma_walk_push(rest, e, first, u, x);
            lemma_walk_push(rest, e, second, y, v);
            assert(adjacent(edges, x, y)) by {
                assert(joins(edges[edges.len() - 1], x, y));
            }
            lemma_walk_concat(edges, first, second, u, x, y, v);
            first + second
        }
    }
}

/// Where a walk leads from `u` to `v`, the edges join `u` and `v`.
pub proof fn lemma_walk_connected(edges: Seq<Edge>, walk: Seq<u64>, u: u64, v: u64)
    requires
        is_walk(edges, walk, u, v),
    ensures
        connected(edges, u, v),
    decreases walk.len(),
{
    if walk.len() == 1 {
        lemma_connected_reflexive(edges, u);
    } else {
        let before = walk.drop_last();
        let x = before.last();
        assert(is_walk(edges, before, u, x)) by {
            assert forall|i: int| 0 <= i < before.len() - 1 implies adjacent(
                edges,
                #[trigger] before[i],
                before[i + 1],
            ) by {
                assert(before[i] == walk[i] && before[i + 1] == walk[i + 1]);
            }
        }
        lemma_walk_connected(edges, before, u, x);
        assert(adjacent(edges, x, v)) by {
            assert(walk[walk.len() - 2] == x);
            assert(adjacent(edges, walk[walk.len() - 2], walk[walk.len() - 2 + 1]));
        }
        let k = choose|k: int| 0 <= k < edges.len() && joins(#[trigger] edges[k], x, v);
        lemma_edge_connected(edges, k);
        lemma_equivalence(edges);
    }
}

/// The edges join two vertices exactly where a walk leads from the one to the
/// other.
pub proof fn lemma_connected_iff_walk(edges: Seq<Edge>, u: u64, v: u64)
    ensures
        connected(edges, u, v) <==> exists|walk: Seq<u64>| is_walk(edges, walk, u, v),
{
    if connected(edges, u, v) {
        let walk = lemma_connected_walk(edges, u, v);
        assert(is_walk(edges, walk, u, v));
    }
    if exists|walk: Seq<u64>| is_walk(edges, walk, u, v) {
        let walk = choose|walk: Seq<u64>| is_walk(edges, walk, u, v);
        lemma_walk_connected(edges, walk, u, v);
    }
}

} // verus!
