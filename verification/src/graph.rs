//! The graph container.

use crate::components::{component_count, endpoints_within};
use crate::connectivity::{connected, lemma_connected_push, lemma_equivalence};
use crate::edge::Edge;
use crate::forest::{greedy_forest, is_forest, minimum_spanning_forest};
use crate::minimality::{
    is_minimum_spanning_forest_of, lemma_minimum_spanning_forest, lemma_spanning_forest_size,
};
use crate::sorting::{lemma_sort_contains, sort_by_weight, stable_sort_by_weight};
use crate::tracker::ConnectivityTracker;
use std::collections::HashSet;
use vstd::prelude::*;
use vstd::seq_lib::seq_to_set_is_finite;
use vstd::set_lib::lemma_subset_equality;
use vstd::std_specs::hash::spec_hash_keys_iter;
use vstd::std_specs::iter::IteratorSpec;

verus! {

broadcast use vstd::std_specs::hash::group_hash_axioms;

/// What a [`Graph`] holds: a set of vertices and the list of its edges, in insertion order.
pub struct GraphView {
    pub vertices: Set<u64>,
    pub edges: Seq<Edge>,
}

impl GraphView {
    /// Whether both ends of every edge are vertices of the graph.
    pub open spec fn endpoints_known(self) -> bool {
        endpoints_within(self.vertices, self.edges)
    }

    /// The number of connected components of the graph.
    pub open spec fn component_count(self) -> nat {
        component_count(self.vertices, self.edges)
    }
}

/// Why a graph has no spanning forest.
#[derive(Clone, Copy, Debug, PartialEq, Eq, Structural)]
pub enum GraphError {
    /// An end of an edge is not a vertex of the graph.
    UnknownVertex,
}

/// A weighted, undirected graph.
#[derive(Debug)]
pub struct Graph {
    vertices: HashSet<u64>,
    edges: Vec<Edge>,
}

impl View for Graph {
    type V = GraphView;

    closed spec fn view(&self) -> GraphView {
        GraphView { vertices: self.vertices@, edges: self.edges@ }
    }
}

/// A set of vertices is finite.
proof fn lemma_hash_set_finite(vertices: &HashSet<u64>)
    ensures
        vertices@.finite(),
{
    let keys = spec_hash_keys_iter(vertices).remaining().unref();
    assert(keys.to_set() == vertices@);
    seq_to_set_is_finite(keys);
}

/// A set with the same vertices.
fn copy_vertices(vertices: &HashSet<u64>) -> (copy: HashSet<u64>)
    ensures
        copy@ == vertices@,
{
    let mut copy: HashSet<u64> = HashSet::new();
    for v in it: vertices.iter()
        invariant
            it.seq().unref().to_set() == vertices@,
            it.seq().no_duplicates(),
            it.seq().len() == vertices@.len(),
            copy@.finite(),
            copy@.len() == it.index(),
            forall|k: u64|
                copy@.contains(k) ==> exists|j: int|
                    0 <= j < it.index() && *#[trigger] it.seq()[j] == k,
            forall|k: u64| copy@.contains(k) ==> vertices@.contains(k),
    {
        proof {
            assert(it.seq().unref()[it.index()] == *v);
            assert(it.seq().unref().contains(*v));
        }
        copy.insert(*v);
    }
    proof {
        lemma_hash_set_finite(vertices);
        lemma_subset_equality(copy@, vertices@);
    }
    copy
}

impl Clone for Graph {
    /// A graph with the same vertices and the same edges.
    fn clone(&self) -> (g: Graph)
        ensures
            g@ == self@,
    {
        let vertices = copy_vertices(&self.vertices);
        let mut edges: Vec<Edge> = Vec::new();
        let mut k: usize = 0;
        while k < self.edges.len()
            invariant
                k <= self.edges@.len(),
                edges@ == self.edges@.take(k as int),
            decreases self.edges@.len() - k,
        {
            edges.push(self.edges[k]);
            proof {
                assert(self.edges@.take(k + 1) =~= self.edges@.take(k as int).push(
                    self.edges@[k as int],
                ));
            }
            k += 1;
        }
        proof {
            assert(self.edges@.take(k as int) =~= self.edges@);
        }
        Graph { vertices, edges }
    }
}

impl Default for Graph {
    /// The graph without vertices and edges.
    fn default() -> (g: Graph)
        ensures
            g@.vertices == Set::<u64>::empty(),
            g@.edges == Seq::<Edge>::empty(),
    {
        Graph::new()
    }
}

impl Graph {
    /// A graph has finitely many vertices.
    pub proof fn lemma_vertices_finite(&self)
        ensures
            self@.vertices.finite(),
    {
        lemma_hash_set_finite(&self.vertices);
    }

    /// The graph without vertices and edges.
    pub fn new() -> (g: Graph)
        ensures
            g@.vertices == Set::<u64>::empty(),
            g@.edges == Seq::<Edge>::empty(),
    {
        Graph { vertices: HashSet::new(), edges: Vec::new() }
    }

    /// Adds a vertex; a vertex that is already there is left alone.
    pub fn add_vertex(&mut self, vertex: u64) -> (ret: &mut Graph)
        ensures
            ret@.vertices == old(self)@.vertices.insert(vertex),
            ret@.edges == old(self)@.edges,
            *final(self) == *final(ret),
    {
        self.vertices.insert(vertex);
        self
    }

    /// Appends an edge. Its endpoints need not be vertices of the graph yet.
    pub fn add_edge(&mut self, source: u64, destination: u64, weight: i64) -> (ret: &mut Graph)
        ensures
            ret@.vertices == old(self)@.vertices,
            ret@.edges == old(self)@.edges.push(Edge { source, destination, weight }),
            *final(self) == *final(ret),
    {
        self.edges.push(Edge { source, destination, weight });
        self
    }

    /// How many vertices the graph has.
    pub fn vertex_count(&self) -> (n: usize)
        ensures
            n == self@.vertices.len(),
    {
        self.vertices.len()
    }

    /// How many edges the graph has.
    pub fn edge_count(&self) -> (n: usize)
        ensures
            n == self@.edges.len(),
    {
        self.edges.len()
    }

    /// Whether `vertex` is a vertex of the graph.
    pub fn contains_vertex(&self, vertex: u64) -> (known: bool)
        ensures
            known == self@.vertices.contains(vertex),
    {
        self.vertices.contains(&vertex)
    }

    /// The edges of the graph, in the order in which the graph holds them.
    pub fn edges(&self) -> (edges: &Vec<Edge>)
        ensures
            edges@ == self@.edges,
    {
        &self.edges
    }

    /// A minimum spanning forest of the graph, by Kruskal's algorithm.
    ///
    /// The edges of the graph are sorted by weight, lightest first, edges of equal
    /// weight staying in their order. They are then taken in turn: an edge enters
    /// the forest where the edges taken so far do not join its two ends. The forest
    /// is returned in that order.
    ///
    /// Where an end of an edge is not a vertex of the graph, nothing is computed
    /// and the graph stays as it is.
    pub fn kruskal(&mut self) -> (result: Result<Vec<Edge>, GraphError>)
        ensures
            result is Ok <==> old(self)@.endpoints_known(),
            match result {
                Ok(forest) => {
                    &&& final(self)@.vertices == old(self)@.vertices
                    &&& final(self)@.edges == sort_by_weight(old(self)@.edges)
                    &&& forest@ == minimum_spanning_forest(old(self)@.edges)
                    &&& is_forest(forest@)
                    &&& is_minimum_spanning_forest_of(forest@, old(self)@.edges)
                    &&& forest@.len() + old(self)@.component_count() == old(self)@.vertices.len()
                },
                Err(error) => error == GraphError::UnknownVertex && final(self)@ == old(self)@,
            },
    {
        let mut k: usize = 0;
        while k < self.edges.len()
            invariant
                *self == *old(self),
                k <= self.edges@.len(),
                forall|i: int|
                    0 <= i < k ==> self.vertices@.contains((#[trigger] self.edges@[i]).source)
                        && self.vertices@.contains(self.edges@[i].destination),
            decreases self.edges@.len() - k,
        {
            let e = self.edges[k];
            if !self.vertices.contains(&e.source) || !self.vertices.contains(&e.destination) {
                assert(old(self)@.edges[k as int] == e);
                return Err(GraphError::UnknownVertex);
            }
            k += 1;
        }
        let mut tracker = ConnectivityTracker::new(&self.vertices);
        stable_sort_by_weight(&mut self.edges);
        proof {
            assert forall|i: int| 0 <= i < self.edges@.len() implies self.vertices@.contains(
                (#[trigger] self.edges@[i]).source,
            ) && self.vertices@.contains(self.edges@[i].destination) by {
                let e = self.edges@[i];
                lemma_sort_contains(old(self).edges@, e);
                assert(self.edges@.contains(e));
                let j = choose|j: int| 0 <= j < old(self).edges@.len() && old(self).edges@[j] == e;
                assert(old(self)@.edges[j] == e);
            }
            assert(self.edges@.take(0) =~= Seq::<Edge>::empty());
        }
        let mut forest: Vec<Edge> = Vec::new();
        let mut k: usize = 0;
        while k < self.edges.len()
            invariant
                k <= self.edges@.len(),
                self.vertices == old(self).vertices,
                self.edges@ == sort_by_weight(old(self).edges@),
                endpoints_within(self.vertices@, self.edges@),
                tracker.wf(),
                tracker.vertices() == self.vertices@,
                forest@ == greedy_forest(self.edges@.take(k as int)),
                forall|u: u64, v: u64|
                    self.vertices@.contains(u) && self.vertices@.contains(v) ==> (
                    tracker.same_group(u, v) <==> #[trigger] connected(forest@, u, v)),
            decreases self.edges@.len() - k,
        {
            let e = self.edges[k];
            let ghost taken = forest@;
            proof {
                assert(self.edges@.take(k + 1).drop_last() =~= self.edges@.take(k as int));
                assert(self.edges@.take(k + 1).last() == e);
                assert(self.vertices@.contains(self.edges@[k as int].source));
            }
            if !tracker.connected(e.source, e.destination) {
                let ghost found = tracker;
                forest.push(e);
                tracker.union(e.source, e.destination);
                proof {
                    lemma_equivalence(taken);
                    assert forall|u: u64, v: u64|
                        self.vertices@.contains(u) && self.vertices@.contains(v) implies (
                    tracker.same_group(u, v) <==> #[trigger] connected(forest@, u, v)) by {
                        lemma_connected_push(taken, e, u, v);
                        assert(found.same_group(u, e.source) <==> connected(taken, u, e.source));
                        assert(found.same_group(u, e.destination) <==> connected(
                            taken,
                            u,
                            e.destination,
                        ));
                        assert(found.same_group(v, e.source) <==> connected(taken, v, e.source));
                        assert(found.same_group(v, e.destination) <==> connected(
                            taken,
                            v,
                            e.destination,
                        ));
                        assert(found.same_group(u, v) <==> connected(taken, u, v));
                    }
                }
            }
            k += 1;
        }
        proof {
            assert(self.edges@.take(k as int) =~= self.edges@);
            lemma_minimum_spanning_forest(old(self)@.edges);
            self.lemma_vertices_finite();
            lemma_spanning_forest_size(old(self)@.vertices, old(self)@.edges, forest@);
        }
        Ok(forest)
    }
}

} // verus!
