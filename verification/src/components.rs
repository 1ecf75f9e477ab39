//! Counting the connected components of a graph.

use crate::connectivity::{
    connected, joined_within, lemma_connected_least, lemma_connected_push, lemma_equivalence,
};
use crate::edge::Edge;
use crate::forest::{is_forest, lemma_forest_prefix};
use vstd::prelude::*;
use vstd::set_lib::lemma_len_subset;

verus! {

/// Whether both ends of every edge are among the vertices.
pub open spec fn endpoints_within(vertices: Set<u64>, edges: Seq<Edge>) -> bool {
    forall|i: int|
        0 <= i < edges.len() ==> vertices.contains((#[trigger] edges[i]).source)
            && vertices.contains(edges[i].destination)
}

/// Whether `v` is the least of the vertices that the edges join to it. Each
/// connected component has one such vertex.
pub open spec fn is_component_leader(edges: Seq<Edge>, v: u64) -> bool {
    forall|u: u64| #[trigger] connected(edges, u, v) ==> v <= u
}

/// The least vertex of each connected component.
pub open spec fn component_leaders(vertices: Set<u64>, edges: Seq<Edge>) -> Set<u64> {
    Set::new(|v: u64| vertices.contains(v) && is_component_leader(edges, v))
}

/// The number of connected components of the graph with these vertices and edges.
pub open spec fn component_count(vertices: Set<u64>, edges: Seq<Edge>) -> nat {
    component_leaders(vertices, edges).len()
}

/// The least vertex of the connected component of `v`.
pub open spec fn leader_of(edges: Seq<Edge>, v: u64) -> u64 {
    choose|u: u64| connected(edges, u, v) && is_component_leader(edges, u)
}

/// What is joined to a vertex of the graph is a vertex of the graph.
pub proof fn lemma_connected_within(vertices: Set<u64>, edges: Seq<Edge>, u: u64, v: u64)
    requires
        endpoints_within(vertices, edges),
        connected(edges, u, v),
    ensures
        vertices.contains(u) <==> vertices.contains(v),
    decreases edges.len(),
{
    if edges.len() > 0 {
        let rest = edges.drop_last();
        let e = edges.last();
        assert(endpoints_within(vertices, rest)) by {
            assert forall|i: int| 0 <= i < rest.len() implies vertices.contains(
                (#[trigger] rest[i]).source,
            ) && vertices.contains(rest[i].destination) by {
                assert(rest[i] == edges[i]);
            }
        }
        assert(vertices.contains(e.source) && vertices.contains(e.destination)) by {
            assert(e == edges[edges.len() - 1]);
        }
        if connected(rest, u, v) {
            lemma_connected_within(vertices, rest, u, v);
        } else if connected(rest, u, e.source) && connected(rest, e.destination, v) {
            lemma_connected_within(vertices, rest, u, e.source);
            lemma_connected_within(vertices, rest, e.destination, v);
        } else {
            lemma_connected_within(vertices, rest, u, e.destination);
            lemma_connected_within(vertices, rest, e.source, v);
        }
    }
}

proof fn lemma_leader_below(edges: Seq<Edge>, v: u64, c: u64)
    requires
        connected(edges, c, v),
    ensures
        exists|u: u64| connected(edges, u, v) && is_component_leader(edges, u),
    decreases c,
{
    if !is_component_leader(edges, c) {
        let w = choose|w: u64| connected(edges, w, c) && !(c <= w);
        lemma_equivalence(edges);
        lemma_leader_below(edges, v, w);
    }
}

/// Every vertex has the least vertex of its connected component, and no other
/// vertex joined to it is the least of a component.
pub proof fn lemma_leader_of(edges: Seq<Edge>, v: u64)
    ensures
        connected(edges, leader_of(edges, v), v),
        is_component_leader(edges, leader_of(edges, v)),
        forall|u: u64|
            connected(edges, u, v) && is_component_leader(edges, u) ==> u == leader_of(edges, v),
{
    lemma_equivalence(edges);
    lemma_leader_below(edges, v, v);
    let l = leader_of(edges, v);
    assert forall|u: u64| connected(edges, u, v) && is_component_leader(edges, u) implies u
        == l by {
        assert(connected(edges, v, l));
        assert(connected(edges, u, l));
        assert(connected(edges, l, u));
    }
}

/// Without edges every vertex is a component of its own.
pub proof fn lemma_leaders_without_edges(vertices: Set<u64>)
    ensures
        component_leaders(vertices, Seq::<Edge>::empty()) == vertices,
{
    assert(component_leaders(vertices, Seq::<Edge>::empty()) =~= vertices);
}

/// An edge between two components makes one of the two: the greater of their
/// least vertices is the least of a component no longer, and nothing else
/// changes.
pub proof fn lemma_leaders_push(vertices: Set<u64>, edges: Seq<Edge>, e: Edge)
    requires
        endpoints_within(vertices, edges),
        vertices.contains(e.source),
        vertices.contains(e.destination),
        !connected(edges, e.source, e.destination),
    ensures
        ({
            let a = leader_of(edges, e.source);
            let b = leader_of(edges, e.destination);
            let gone = if a < b { b } else { a };
            &&& component_leaders(vertices, edges).contains(gone)
            &&& component_leaders(vertices, edges.push(e)) == component_leaders(
                vertices,
                edges,
            ).remove(gone)
        }),
{
    let longer = edges.push(e);
    let a = leader_of(edges, e.source);
    let b = leader_of(edges, e.destination);
    let gone = if a < b { b } else { a };
    let kept = if a < b { a } else { b };
    lemma_leader_of(edges, e.source);
    lemma_leader_of(edges, e.destination);
    lemma_equivalence(edges);
    lemma_equivalence(longer);
    lemma_connected_within(vertices, edges, a, e.source);
    lemma_connected_within(vertices, edges, b, e.destination);
    assert(a != b);
    assert(connected(longer, kept, gone)) by {
        lemma_connected_push(edges, e, kept, gone);
    }
    assert forall|v: u64| component_leaders(vertices, longer).contains(v)
        <==> component_leaders(vertices, edges).remove(gone).contains(v) by {
        if vertices.contains(v) {
            if is_component_leader(longer, v) {
                assert forall|u: u64| #[trigger] connected(edges, u, v) implies v <= u by {
                    lemma_connected_push(edges, e, u, v);
                }
                if v == gone {
                    assert(connected(longer, kept, v));
                }
            }
            if is_component_leader(edges, v) && v != gone {
                assert forall|u: u64| #[trigger] connected(longer, u, v) implies v <= u by {
                    lemma_connected_push(edges, e, u, v);
                    if !connected(edges, u, v) {
                        if connected(edges, u, e.source) && connected(edges, e.destination, v) {
                            assert(connected(edges, v, e.destination));
                            assert(v == b);
                            assert(connected(edges, u, a));
                        } else {
                            assert(connected(edges, v, e.source));
                            assert(v == a);
                            assert(connected(edges, u, b));
                        }
                    }
                }
            }
        }
    }
    assert(component_leaders(vertices, longer) =~= component_leaders(vertices, edges).remove(
        gone,
    ));
}

/// A forest of `n` edges on `v` vertices has `v - n` connected components.
pub proof fn lemma_forest_components(vertices: Set<u64>, forest: Seq<Edge>)
    requires
        vertices.finite(),
        endpoints_within(vertices, forest),
        is_forest(forest),
    ensures
        component_leaders(vertices, forest).finite(),
        component_count(vertices, forest) + forest.len() == vertices.len(),
    decreases forest.len(),
{
    if forest.len() == 0 {
        assert(forest =~= Seq::<Edge>::empty());
        lemma_leaders_without_edges(vertices);
    } else {
        let rest = forest.drop_last();
        let e = forest.last();
        assert(rest =~= forest.take(forest.len() - 1));
        lemma_forest_prefix(forest, forest.len() - 1);
        assert(endpoints_within(vertices, rest)) by {
            assert forall|i: int| 0 <= i < rest.len() implies vertices.contains(
                (#[trigger] rest[i]).source,
            ) && vertices.contains(rest[i].destination) by {
                assert(rest[i] == forest[i]);
            }
        }
        lemma_forest_components(vertices, rest);
        assert(e == forest[forest.len() - 1]);
        assert(!connected(rest, e.source, e.destination));
        lemma_leaders_push(vertices, rest, e);
        assert(forest =~= rest.push(e));
    }
}

/// Where `coarse` joins the ends of every edge of `fine`, each least vertex of
/// a component of `coarse` is the least vertex of a component of `fine`: `fine`
/// has at least as many components.
pub proof fn lemma_components_refine(vertices: Set<u64>, fine: Seq<Edge>, coarse: Seq<Edge>)
    requires
        vertices.finite(),
        joined_within(fine, coarse),
    ensures
        component_leaders(vertices, coarse).subset_of(component_leaders(vertices, fine)),
        component_leaders(vertices, fine).finite(),
        component_count(vertices, coarse) <= component_count(vertices, fine),
{
    assert forall|v: u64| component_leaders(vertices, coarse).contains(v)
        implies component_leaders(vertices, fine).contains(v) by {
        assert forall|u: u64| #[trigger] connected(fine, u, v) implies v <= u by {
            lemma_connected_least(fine, coarse, u, v);
        }
    }
    lemma_len_subset(component_leaders(vertices, fine), vertices);
    lemma_len_subset(component_leaders(vertices, coarse), component_leaders(vertices, fine));
}

/// Two lists of edges that join the same vertices have the same components.
pub proof fn lemma_components_same(vertices: Set<u64>, a: Seq<Edge>, b: Seq<Edge>)
    requires
        forall|u: u64, v: u64| connected(a, u, v) <==> connected(b, u, v),
    ensures
        component_leaders(vertices, a) == component_leaders(vertices, b),
{
    assert forall|v: u64| is_component_leader(a, v) <==> is_component_leader(b, v) by {
        if is_component_leader(a, v) {
            assert forall|u: u64| #[trigger] connected(b, u, v) implies v <= u by {
                assert(connected(a, u, v));
            }
        }
        if is_component_leader(b, v) {
            assert forall|u: u64| #[trigger] connected(a, u, v) implies v <= u by {
                assert(connected(b, u, v));
            }
        }
    }
    assert(component_leaders(vertices, a) =~= component_leaders(vertices, b));
}

/// A forest has no more edges than another forest that joins the ends of each
/// of its edges.
pub proof fn lemma_forest_size_bound(vertices: Set<u64>, inner: Seq<Edge>, outer: Seq<Edge>)
    requires
        vertices.finite(),
        endpoints_within(vertices, inner),
        endpoints_within(vertices, outer),
        is_forest(inner),
        is_forest(outer),
        joined_within(inner, outer),
    ensures
        inner.len() <= outer.len(),
{
    lemma_forest_components(vertices, inner);
    lemma_forest_components(vertices, outer);
    lemma_components_refine(vertices, inner, outer);
}

} // verus!
