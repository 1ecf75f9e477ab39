//! Forests, and the forest that is built by taking the edges of a list in turn.

use crate::connectivity::{
    connected, joined_within, lemma_connected_least, lemma_connected_push, lemma_edge_connected,
    lemma_equivalence,
};
use crate::edge::Edge;
use crate::sorting::{
    lemma_sort_is_stable, lemma_sort_of_sorted, lemma_stable_sort_unique, sort_by_weight,
    sorted_by_weight, with_weight,
};
use vstd::prelude::*;

verus! {

/// Whether the edges close no cycle: no edge joins two vertices that the edges
/// before it join already.
pub open spec fn is_forest(edges: Seq<Edge>) -> bool {
    forall|i: int|
        0 <= i < edges.len() ==> !connected(
            edges.take(i),
            (#[trigger] edges[i]).source,
            edges[i].destination,
        )
}

/// The forest built from the edges in the order of the list: an edge is taken
/// where the edges taken before it do not join its two ends, and left out
/// where they do.
pub open spec fn greedy_forest(edges: Seq<Edge>) -> Seq<Edge>
    decreases edges.len(),
{
    if edges.len() == 0 {
        Seq::empty()
    } else {
        let forest = greedy_forest(edges.drop_last());
        let e = edges.last();
        if connected(forest, e.source, e.destination) {
            forest
        } else {
            forest.push(e)
        }
    }
}

/// The forest built from the edges taken lightest first, edges of equal weight
/// in the order of the list.
pub open spec fn minimum_spanning_forest(edges: Seq<Edge>) -> Seq<Edge> {
    greedy_forest(sort_by_weight(edges))
}

/// Whether every edge of `inner` is an edge of `outer`.
pub open spec fn drawn_from(inner: Seq<Edge>, outer: Seq<Edge>) -> bool {
    forall|i: int| 0 <= i < inner.len() ==> outer.contains(#[trigger] inner[i])
}

/// What is made of edges of a list joins no more than the list does.
pub proof fn lemma_drawn_from_joined_within(inner: Seq<Edge>, outer: Seq<Edge>)
    requires
        drawn_from(inner, outer),
    ensures
        joined_within(inner, outer),
{
    assert forall|i: int| 0 <= i < inner.len() implies connected(
        outer,
        (#[trigger] inner[i]).source,
        inner[i].destination,
    ) by {
        let k = choose|k: int| 0 <= k < outer.len() && outer[k] == inner[i];
        lemma_edge_connected(outer, k);
    }
}

/// The first edges of a forest are a forest.
pub proof fn lemma_forest_prefix(edges: Seq<Edge>, n: int)
    requires
        is_forest(edges),
        0 <= n <= edges.len(),
    ensures
        is_forest(edges.take(n)),
{
    assert forall|i: int| 0 <= i < n implies !connected(
        edges.take(n).take(i),
        (#[trigger] edges.take(n)[i]).source,
        edges.take(n)[i].destination,
    ) by {
        assert(edges.take(n).take(i) =~= edges.take(i));
        assert(edges.take(n)[i] == edges[i]);
    }
}

/// A forest with one more edge, between two vertices that it does not join, is
/// a forest.
pub proof fn lemma_forest_push(forest: Seq<Edge>, e: Edge)
    requires
        is_forest(forest),
        !connected(forest, e.source, e.destination),
    ensures
        is_forest(forest.push(e)),
{
    let longer = forest.push(e);
    assert forall|i: int| 0 <= i < longer.len() implies !connected(
        longer.take(i),
        (#[trigger] longer[i]).source,
        longer[i].destination,
    ) by {
        if i < forest.len() {
            assert(longer.take(i) =~= forest.take(i));
            assert(longer[i] == forest[i]);
        } else {
            assert(longer.take(i) =~= forest);
        }
    }
}

/// The forest built from a list is a forest.
pub proof fn lemma_greedy_forest_is_forest(edges: Seq<Edge>)
    ensures
        is_forest(greedy_forest(edges)),
    decreases edges.len(),
{
    if edges.len() > 0 {
        lemma_greedy_forest_is_forest(edges.drop_last());
        let forest = greedy_forest(edges.drop_last());
        if !connected(forest, edges.last().source, edges.last().destination) {
            lemma_forest_push(forest, edges.last());
        }
    }
}

/// The forest built from a list is made of edges of the list, and is sorted by
/// weight where the list is.
pub proof fn lemma_greedy_forest_drawn(edges: Seq<Edge>)
    ensures
        drawn_from(greedy_forest(edges), edges),
        greedy_forest(edges).len() <= edges.len(),
        sorted_by_weight(edges) ==> sorted_by_weight(greedy_forest(edges)),
    decreases edges.len(),
{
    if edges.len() > 0 {
        let rest = edges.drop_last();
        let e = edges.last();
        lemma_greedy_forest_drawn(rest);
        let forest = greedy_forest(rest);
        let out = greedy_forest(edges);
        assert forall|i: int| 0 <= i < out.len() implies edges.contains(#[trigger] out[i]) by {
            if i < forest.len() {
                assert(out[i] == forest[i]);
                let k = choose|k: int| 0 <= k < rest.len() && rest[k] == forest[i];
                assert(edges[k] == out[i]);
            } else {
                assert(edges[edges.len() - 1] == out[i]);
            }
        }
        if sorted_by_weight(edges) {
            assert(sorted_by_weight(rest)) by {
                assert forall|i: int, j: int| 0 <= i <= j < rest.len() implies rest[i].weight
                    <= rest[j].weight by {
                    assert(edges[i].weight <= edges[j].weight);
                }
            }
            assert forall|i: int, j: int| 0 <= i <= j < out.len() implies out[i].weight
                <= out[j].weight by {
                if j < forest.len() {
                    assert(forest[i].weight <= forest[j].weight);
                } else if i < forest.len() {
                    let k = choose|k: int| 0 <= k < rest.len() && rest[k] == forest[i];
                    assert(edges[k].weight <= edges[edges.len() - 1].weight);
                }
            }
        }
    }
}

/// The forest built from a list joins exactly what the list joins.
pub proof fn lemma_greedy_forest_spans(edges: Seq<Edge>)
    ensures
        forall|u: u64, v: u64|
            #![trigger connected(greedy_forest(edges), u, v)]
            #![trigger connected(edges, u, v)]
            connected(greedy_forest(edges), u, v) <==> connected(edges, u, v),
    decreases edges.len(),
{
    if edges.len() > 0 {
        let rest = edges.drop_last();
        let e = edges.last();
        let forest = greedy_forest(rest);
        lemma_greedy_forest_spans(rest);
        lemma_equivalence(forest);
        assert forall|u: u64, v: u64|
            #![trigger connected(greedy_forest(edges), u, v)]
            #![trigger connected(edges, u, v)]
            connected(greedy_forest(edges), u, v) <==> connected(edges, u, v) by {
            assert(connected(rest, u, v) <==> connected(forest, u, v));
            assert(connected(rest, u, e.source) <==> connected(forest, u, e.source));
            assert(connected(rest, u, e.destination) <==> connected(forest, u, e.destination));
            assert(connected(rest, e.source, v) <==> connected(forest, e.source, v));
            assert(connected(rest, e.destination, v) <==> connected(forest, e.destination, v));
            if !connected(forest, e.source, e.destination) {
                lemma_connected_push(forest, e, u, v);
            }
        }
    }
}

/// The forest built from the first edges of a list is the beginning of the
/// forest built from the whole list.
pub proof fn lemma_greedy_forest_prefix(edges: Seq<Edge>, n: int)
    requires
        0 <= n <= edges.len(),
    ensures
        greedy_forest(edges.take(n)).len() <= greedy_forest(edges).len(),
        greedy_forest(edges.take(n)) == greedy_forest(edges).take(
            greedy_forest(edges.take(n)).len() as int,
        ),
    decreases edges.len(),
{
    if n == edges.len() {
        assert(edges.take(n) =~= edges);
        assert(greedy_forest(edges).take(greedy_forest(edges).len() as int) =~= greedy_forest(
            edges,
        ));
    } else {
        let rest = edges.drop_last();
        assert(rest.take(n) =~= edges.take(n));
        lemma_greedy_forest_prefix(rest, n);
        let part = greedy_forest(edges.take(n));
        assert(greedy_forest(edges).take(part.len() as int) =~= greedy_forest(rest).take(
            part.len() as int,
        ));
    }
}

/// Computing the forest a second time gives the same forest: the edges that the
/// first computation has left sorted are sorted into the same list again, and
/// the forest built from them is the forest built the first time.
pub proof fn lemma_minimum_spanning_forest_of_sorted(edges: Seq<Edge>)
    ensures
        sort_by_weight(sort_by_weight(edges)) == sort_by_weight(edges),
        minimum_spanning_forest(sort_by_weight(edges)) == minimum_spanning_forest(edges),
{
    lemma_sort_is_stable(edges);
    lemma_sort_of_sorted(sort_by_weight(edges));
}

/// Ties are broken by the order of the edges alone: two lists that hold the
/// same edges of each weight, in the same order among themselves, give the same
/// sorted list and the same forest, however edges of different weight stand to
/// each other in the two.
pub proof fn lemma_minimum_spanning_forest_of_ties(a: Seq<Edge>, b: Seq<Edge>)
    requires
        forall|w: i64| with_weight(a, w) == with_weight(b, w),
    ensures
        sort_by_weight(a) == sort_by_weight(b),
        minimum_spanning_forest(a) == minimum_spanning_forest(b),
{
    lemma_sort_is_stable(a);
    lemma_sort_is_stable(b);
    assert forall|w: i64|
        with_weight(sort_by_weight(a), w) == with_weight(sort_by_weight(b), w) by {
        assert(with_weight(a, w) == with_weight(b, w));
    }
    lemma_stable_sort_unique(sort_by_weight(a), sort_by_weight(b));
}

} // verus!
