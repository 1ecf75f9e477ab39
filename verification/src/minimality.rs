//! Spanning forests, their total weight, and why the forest built from the
//! edges taken lightest first has the least.

use crate::components::{
    component_count, endpoints_within, lemma_components_same, lemma_forest_components,
    lemma_forest_size_bound,
};
use crate::connectivity::{connected, joined_within, lemma_connected_least};
use crate::edge::Edge;
use crate::forest::{
    drawn_from, greedy_forest, is_forest, lemma_drawn_from_joined_within, lemma_forest_prefix,
    lemma_forest_push, lemma_greedy_forest_drawn, lemma_greedy_forest_is_forest,
    lemma_greedy_forest_prefix, lemma_greedy_forest_spans, minimum_spanning_forest,
};
use crate::sorting::{lemma_sort_contains, lemma_sort_is_stable, sort_by_weight, sorted_by_weight};
use vstd::prelude::*;

verus! {

/// The sum of the weights of the edges.
pub open spec fn total_weight(edges: Seq<Edge>) -> int
    decreases edges.len(),
{
    if edges.len() == 0 {
        0
    } else {
        total_weight(edges.drop_last()) + edges.last().weight
    }
}

/// Whether `forest` is a spanning forest of the graph with the edges `edges`:
/// made of edges of the graph, without a cycle, and joining whatever the graph
/// joins.
pub open spec fn is_spanning_forest_of(forest: Seq<Edge>, edges: Seq<Edge>) -> bool {
    &&& drawn_from(forest, edges)
    &&& is_forest(forest)
    &&& forall|u: u64, v: u64| connected(edges, u, v) ==> connected(forest, u, v)
}

/// Whether `forest` is a spanning forest of the graph, and no spanning forest
/// of the graph has less total weight.
pub open spec fn is_minimum_spanning_forest_of(forest: Seq<Edge>, edges: Seq<Edge>) -> bool {
    &&& is_spanning_forest_of(forest, edges)
    &&& forall|other: Seq<Edge>| #[trigger]
        is_spanning_forest_of(other, edges) ==> total_weight(forest) <= total_weight(other)
}

/// The edges of weight below `t`, in the order of the list.
pub open spec fn lighter(edges: Seq<Edge>, t: int) -> Seq<Edge>
    decreases edges.len(),
{
    if edges.len() == 0 {
        Seq::empty()
    } else if edges.last().weight < t {
        lighter(edges.drop_last(), t).push(edges.last())
    } else {
        lighter(edges.drop_last(), t)
    }
}

/// The vertices that are an end of an edge.
pub open spec fn endpoints(edges: Seq<Edge>) -> Set<u64>
    decreases edges.len(),
{
    if edges.len() == 0 {
        Set::empty()
    } else {
        endpoints(edges.drop_last()).insert(edges.last().source).insert(edges.last().destination)
    }
}

proof fn lemma_endpoints(edges: Seq<Edge>)
    ensures
        endpoints(edges).finite(),
        endpoints_within(endpoints(edges), edges),
    decreases edges.len(),
{
    if edges.len() > 0 {
        let rest = edges.drop_last();
        lemma_endpoints(rest);
        assert forall|i: int| 0 <= i < edges.len() implies endpoints(edges).contains(
            (#[trigger] edges[i]).source,
        ) && endpoints(edges).contains(edges[i].destination) by {
            if i < rest.len() {
                assert(rest[i] == edges[i]);
            }
        }
    }
}

proof fn lemma_endpoints_drawn(vertices: Set<u64>, inner: Seq<Edge>, outer: Seq<Edge>)
    requires
        endpoints_within(vertices, outer),
        drawn_from(inner, outer),
    ensures
        endpoints_within(vertices, inner),
{
    assert forall|i: int| 0 <= i < inner.len() implies vertices.contains(
        (#[trigger] inner[i]).source,
    ) && vertices.contains(inner[i].destination) by {
        let k = choose|k: int| 0 <= k < outer.len() && outer[k] == inner[i];
        assert(vertices.contains(outer[k].source));
    }
}

proof fn lemma_drawn_from_transitive(a: Seq<Edge>, b: Seq<Edge>, c: Seq<Edge>)
    requires
        drawn_from(a, b),
        drawn_from(b, c),
    ensures
        drawn_from(a, c),
{
    assert forall|i: int| 0 <= i < a.len() implies c.contains(#[trigger] a[i]) by {
        let k = choose|k: int| 0 <= k < b.len() && b[k] == a[i];
        assert(c.contains(b[k]));
    }
}

/// The lighter edges are edges of the list, each of weight below `t`, and no
/// more than the list has.
proof fn lemma_lighter(edges: Seq<Edge>, t: int)
    ensures
        lighter(edges, t).len() <= edges.len(),
        drawn_from(lighter(edges, t), edges),
        forall|i: int|
            0 <= i < lighter(edges, t).len() ==> (#[trigger] lighter(edges, t)[i]).weight < t,
    decreases edges.len(),
{
    if edges.len() > 0 {
        let rest = edges.drop_last();
        lemma_lighter(rest, t);
        let out = lighter(edges, t);
        let inner = lighter(rest, t);
        assert forall|i: int| 0 <= i < out.len() implies edges.contains(#[trigger] out[i])
            && out[i].weight < t by {
            if i < inner.len() {
                assert(out[i] == inner[i]);
                let k = choose|k: int| 0 <= k < rest.len() && rest[k] == inner[i];
                assert(edges[k] == out[i]);
            } else {
                assert(edges[edges.len() - 1] == out[i]);
            }
        }
    }
}

/// Where every edge is lighter than `t`, the lighter edges are all edges.
proof fn lemma_lighter_all(edges: Seq<Edge>, t: int)
    requires
        forall|i: int| 0 <= i < edges.len() ==> (#[trigger] edges[i]).weight < t,
    ensures
        lighter(edges, t) == edges,
    decreases edges.len(),
{
    if edges.len() > 0 {
        let rest = edges.drop_last();
        assert forall|i: int| 0 <= i < rest.len() implies (#[trigger] rest[i]).weight < t by {
            assert(rest[i] == edges[i]);
        }
        lemma_lighter_all(rest, t);
        assert(edges[edges.len() - 1].weight < t);
        assert(rest.push(edges.last()) =~= edges);
    } else {
        assert(lighter(edges, t) =~= edges);
    }
}

/// The first edges of a list hold no more lighter edges than the list.
proof fn lemma_lighter_take(edges: Seq<Edge>, n: int, t: int)
    requires
        0 <= n <= edges.len(),
    ensures
        lighter(edges.take(n), t).len() <= lighter(edges, t).len(),
    decreases edges.len(),
{
    if n == edges.len() {
        assert(edges.take(n) =~= edges);
    } else {
        assert(edges.drop_last().take(n) =~= edges.take(n));
        lemma_lighter_take(edges.drop_last(), n, t);
    }
}

/// Without one of its edges a list has that edge's weight less, and one
/// lighter edge less where the edge was one.
proof fn lemma_remove(edges: Seq<Edge>, i: int, t: int)
    requires
        0 <= i < edges.len(),
    ensures
        total_weight(edges.remove(i)) == total_weight(edges) - edges[i].weight,
        lighter(edges.remove(i), t).len() == lighter(edges, t).len() - if edges[i].weight < t {
            1int
        } else {
            0
        },
    decreases edges.len(),
{
    if i == edges.len() - 1 {
        assert(edges.remove(i) =~= edges.drop_last());
    } else {
        let rest = edges.drop_last();
        lemma_remove(rest, i, t);
        assert(edges.remove(i).drop_last() =~= rest.remove(i));
        assert(edges.remove(i).last() == edges.last());
        assert(rest[i] == edges[i]);
    }
}

/// A place that holds an edge of the greatest weight.
proof fn lemma_heaviest(edges: Seq<Edge>) -> (i: int)
    requires
        edges.len() > 0,
    ensures
        0 <= i < edges.len(),
        forall|j: int| 0 <= j < edges.len() ==> (#[trigger] edges[j]).weight <= edges[i].weight,
    decreases edges.len(),
{
    if edges.len() == 1 {
        0
    } else {
        let rest = edges.drop_last();
        let k = lemma_heaviest(rest);
        let i = if rest[k].weight <= edges.last().weight {
            edges.len() - 1
        } else {
            k
        };
        assert forall|j: int| 0 <= j < edges.len() implies (#[trigger] edges[j]).weight
            <= edges[i].weight by {
            if j < rest.len() {
                assert(rest[j].weight <= rest[k].weight);
            }
        }
        i
    }
}

/// Of two lists of equal length, the one that has, below every weight, at
/// least as many edges as the other has the lesser total weight, or the same.
pub proof fn lemma_lighter_total(a: Seq<Edge>, b: Seq<Edge>)
    requires
        a.len() == b.len(),
        forall|t: int| lighter(b, t).len() <= #[trigger] lighter(a, t).len(),
    ensures
        total_weight(a) <= total_weight(b),
    decreases a.len(),
{
    if a.len() > 0 {
        let n = a.len();
        let ia = lemma_heaviest(a);
        let ib = lemma_heaviest(b);
        let ma = a[ia].weight as int;
        let mb = b[ib].weight as int;
        let ra = a.remove(ia);
        let rb = b.remove(ib);
        assert(ma <= mb) by {
            if ma > mb {
                assert forall|j: int| 0 <= j < b.len() implies (#[trigger] b[j]).weight < ma by {
                    assert(b[j].weight <= b[ib].weight);
                }
                lemma_lighter_all(b, ma);
                lemma_remove(a, ia, ma);
                lemma_lighter(ra, ma);
                assert(lighter(b, ma).len() <= lighter(a, ma).len());
            }
        }
        assert forall|t: int| lighter(rb, t).len() <= #[trigger] lighter(ra, t).len() by {
            lemma_remove(a, ia, t);
            lemma_remove(b, ib, t);
            assert(lighter(b, t).len() <= lighter(a, t).len());
            if ma < t {
                assert forall|j: int| 0 <= j < ra.len() implies (#[trigger] ra[j]).weight < t by {
                    if j < ia {
                        assert(ra[j] == a[j]);
                    } else {
                        assert(ra[j] == a[j + 1]);
                    }
                }
                lemma_lighter_all(ra, t);
                lemma_lighter(rb, t);
            }
        }
        lemma_lighter_total(ra, rb);
        lemma_remove(a, ia, 0);
        lemma_remove(b, ib, 0);
    } else {
        assert(b =~= Seq::<Edge>::empty());
        assert(a =~= Seq::<Edge>::empty());
    }
}

/// The lighter edges of a forest are a forest.
proof fn lemma_lighter_forest(forest: Seq<Edge>, t: int)
    requires
        is_forest(forest),
    ensures
        is_forest(lighter(forest, t)),
    decreases forest.len(),
{
    if forest.len() > 0 {
        let rest = forest.drop_last();
        let e = forest.last();
        assert(rest =~= forest.take(forest.len() - 1));
        lemma_forest_prefix(forest, forest.len() - 1);
        lemma_lighter_forest(rest, t);
        if e.weight < t {
            assert(e == forest[forest.len() - 1]);
            assert(!connected(rest, e.source, e.destination));
            if connected(lighter(rest, t), e.source, e.destination) {
                lemma_lighter(rest, t);
                lemma_drawn_from_joined_within(lighter(rest, t), rest);
                lemma_connected_least(lighter(rest, t), rest, e.source, e.destination);
            }
            lemma_forest_push(lighter(rest, t), e);
        }
    }
}

/// A spanning forest of a graph with `v` vertices and `c` connected components
/// has `v - c` edges.
pub proof fn lemma_spanning_forest_size(vertices: Set<u64>, edges: Seq<Edge>, forest: Seq<Edge>)
    requires
        vertices.finite(),
        endpoints_within(vertices, edges),
        is_spanning_forest_of(forest, edges),
    ensures
        forest.len() + component_count(vertices, edges) == vertices.len(),
{
    lemma_endpoints_drawn(vertices, forest, edges);
    lemma_forest_components(vertices, forest);
    lemma_drawn_from_joined_within(forest, edges);
    assert forall|u: u64, v: u64| connected(forest, u, v) <==> connected(edges, u, v) by {
        if connected(forest, u, v) {
            lemma_connected_least(forest, edges, u, v);
        }
    }
    lemma_components_same(vertices, forest, edges);
}

/// In a sorted list the edges lighter than `t` are the first ones.
proof fn lemma_sorted_lighter(edges: Seq<Edge>, t: int)
    requires
        sorted_by_weight(edges),
    ensures
        lighter(edges, t).len() <= edges.len(),
        forall|i: int|
            0 <= i < edges.len() ==> (i < lighter(edges, t).len() <==> (#[trigger] edges[i]).weight
                < t),
    decreases edges.len(),
{
    lemma_lighter(edges, t);
    if edges.len() > 0 {
        let rest = edges.drop_last();
        let last = edges.last();
        assert(sorted_by_weight(rest)) by {
            assert forall|i: int, j: int| 0 <= i <= j < rest.len() implies rest[i].weight
                <= rest[j].weight by {
                assert(edges[i].weight <= edges[j].weight);
            }
        }
        lemma_sorted_lighter(rest, t);
        if last.weight < t {
            assert forall|i: int| 0 <= i < rest.len() implies (#[trigger] rest[i]).weight < t by {
                assert(edges[i].weight <= edges[edges.len() - 1].weight);
            }
            lemma_lighter_all(rest, t);
        }
        assert forall|i: int| 0 <= i < edges.len() implies (i < lighter(edges, t).len() <==> (
        #[trigger] edges[i]).weight < t) by {
            if i < rest.len() {
                assert(rest[i] == edges[i]);
            }
        }
    }
}

/// Of the spanning forests of a graph whose edges are sorted by weight, the
/// forest built from the edges in their order has the least total weight.
pub proof fn lemma_greedy_forest_minimum(edges: Seq<Edge>, other: Seq<Edge>)
    requires
        sorted_by_weight(edges),
        is_spanning_forest_of(other, edges),
    ensures
        is_spanning_forest_of(greedy_forest(edges), edges),
        greedy_forest(edges).len() == other.len(),
        total_weight(greedy_forest(edges)) <= total_weight(other),
{
    let forest = greedy_forest(edges);
    let vertices = endpoints(edges);
    lemma_endpoints(edges);
    lemma_greedy_forest_is_forest(edges);
    lemma_greedy_forest_drawn(edges);
    lemma_greedy_forest_spans(edges);
    lemma_endpoints_drawn(vertices, forest, edges);
    lemma_endpoints_drawn(vertices, other, edges);
    lemma_drawn_from_joined_within(forest, edges);
    lemma_drawn_from_joined_within(other, edges);
    assert(joined_within(other, forest));
    assert(joined_within(forest, other));
    lemma_forest_size_bound(vertices, other, forest);
    lemma_forest_size_bound(vertices, forest, other);
    assert forall|t: int| lighter(other, t).len() <= #[trigger] lighter(forest, t).len() by {
        let light = lighter(other, t);
        let k = lighter(edges, t).len() as int;
        lemma_sorted_lighter(edges, t);
        let first = edges.take(k);
        let part = greedy_forest(first);
        lemma_lighter(other, t);
        lemma_lighter_forest(other, t);
        assert(drawn_from(light, first)) by {
            assert forall|i: int| 0 <= i < light.len() implies first.contains(
                #[trigger] light[i],
            ) by {
                let j = choose|j: int| 0 <= j < other.len() && other[j] == light[i];
                let p = choose|p: int| 0 <= p < edges.len() && edges[p] == other[j];
                assert(edges[p].weight < t);
                assert(first[p] == light[i]);
            }
        }
        assert(drawn_from(first, edges)) by {
            assert forall|i: int| 0 <= i < first.len() implies edges.contains(
                #[trigger] first[i],
            ) by {
                assert(edges[i] == first[i]);
            }
        }
        lemma_greedy_forest_is_forest(first);
        lemma_greedy_forest_drawn(first);
        lemma_greedy_forest_spans(first);
        lemma_drawn_from_joined_within(light, first);
        assert(joined_within(light, part));
        lemma_drawn_from_transitive(light, first, edges);
        lemma_drawn_from_transitive(part, first, edges);
        lemma_endpoints_drawn(vertices, light, edges);
        lemma_endpoints_drawn(vertices, part, edges);
        lemma_forest_size_bound(vertices, light, part);
        lemma_greedy_forest_prefix(edges, k);
        assert forall|i: int| 0 <= i < part.len() implies (#[trigger] part[i]).weight < t by {
            let p = choose|p: int| 0 <= p < first.len() && first[p] == part[i];
            assert(edges[p].weight < t);
        }
        lemma_lighter_all(part, t);
        lemma_lighter_take(forest, part.len() as int, t);
    }
    lemma_lighter_total(forest, other);
}

/// The spanning forests of a graph do not depend on the order of its edges.
proof fn lemma_spanning_forest_sorted(forest: Seq<Edge>, edges: Seq<Edge>)
    ensures
        is_spanning_forest_of(forest, edges) <==> is_spanning_forest_of(
            forest,
            sort_by_weight(edges),
        ),
{
    let sorted = sort_by_weight(edges);
    assert(drawn_from(sorted, edges)) by {
        assert forall|i: int| 0 <= i < sorted.len() implies edges.contains(
            #[trigger] sorted[i],
        ) by {
            lemma_sort_contains(edges, sorted[i]);
        }
    }
    assert(drawn_from(edges, sorted)) by {
        assert forall|i: int| 0 <= i < edges.len() implies sorted.contains(#[trigger] edges[i]) by {
            lemma_sort_contains(edges, edges[i]);
        }
    }
    lemma_drawn_from_joined_within(sorted, edges);
    lemma_drawn_from_joined_within(edges, sorted);
    assert forall|u: u64, v: u64| connected(edges, u, v) <==> connected(sorted, u, v) by {
        if connected(edges, u, v) {
            lemma_connected_least(edges, sorted, u, v);
        }
        if connected(sorted, u, v) {
            lemma_connected_least(sorted, edges, u, v);
        }
    }
    if drawn_from(forest, edges) {
        lemma_drawn_from_transitive(forest, edges, sorted);
    }
    if drawn_from(forest, sorted) {
        lemma_drawn_from_transitive(forest, sorted, edges);
    }
}

/// The forest built from the edges of a graph taken lightest first is a
/// spanning forest of the graph, and none of its spanning forests has less
/// total weight.
pub proof fn lemma_minimum_spanning_forest(edges: Seq<Edge>)
    ensures
        is_minimum_spanning_forest_of(minimum_spanning_forest(edges), edges),
{
    let sorted = sort_by_weight(edges);
    let forest = minimum_spanning_forest(edges);
    lemma_sort_is_stable(edges);
    lemma_greedy_forest_is_forest(sorted);
    lemma_greedy_forest_drawn(sorted);
    lemma_greedy_forest_spans(sorted);
    assert(is_spanning_forest_of(forest, sorted));
    lemma_spanning_forest_sorted(forest, edges);
    assert forall|other: Seq<Edge>| #[trigger] is_spanning_forest_of(other, edges)
        implies total_weight(forest) <= total_weight(other) by {
        lemma_spanning_forest_sorted(other, edges);
        lemma_greedy_forest_minimum(sorted, other);
    }
}

} // verus!
