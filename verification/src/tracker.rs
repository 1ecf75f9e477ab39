//! The connectivity tracker of the vertices of a graph: which vertices are in
//! one group, kept in a disjoint-set forest over the numbers of the vertices.

use crate::disjoint_set::DisjointSet;
use std::collections::HashMap;
use std::collections::HashSet;
use vstd::prelude::*;
use vstd::set_lib::lemma_subset_equality;

verus! {

broadcast use vstd::std_specs::hash::group_hash_axioms;

/// Whether `index` gives each of the vertices a number below their count, and
/// no two of them the same number.
spec fn numbers(index: Map<u64, usize>, vertices: Set<u64>) -> bool {
    &&& index.dom() == vertices
    &&& forall|v: u64| vertices.contains(v) ==> #[trigger] index[v] < vertices.len()
    &&& forall|u: u64, v: u64|
        vertices.contains(u) && vertices.contains(v) && #[trigger] index[u] == #[trigger] index[v]
            ==> u == v
}

/// Numbers the vertices from zero, each with a number of its own.
fn number_vertices(vertices: &HashSet<u64>) -> (index: HashMap<u64, usize>)
    ensures
        numbers(index@, vertices@),
{
    let mut index: HashMap<u64, usize> = HashMap::new();
    for v in it: vertices.iter()
        invariant
            it.seq().unref().to_set() == vertices@,
            it.seq().no_duplicates(),
            it.seq().len() == vertices@.len(),
            index@.len() == it.index(),
            forall|j: int|
                0 <= j < it.index() ==> index@.contains_key(*#[trigger] it.seq()[j])
                    && index@[*it.seq()[j]] == j,
            forall|k: u64|
                index@.contains_key(k) ==> exists|j: int|
                    0 <= j < it.index() && *#[trigger] it.seq()[j] == k,
            forall|k: u64| index@.contains_key(k) ==> vertices@.contains(k),
            forall|k: u64| index@.contains_key(k) ==> #[trigger] index@[k] < index@.len(),
            forall|u: u64, v: u64|
                index@.contains_key(u) && index@.contains_key(v) && #[trigger] index@[u]
                    == #[trigger] index@[v] ==> u == v,
    {
        proof {
            assert(it.seq().unref()[it.index()] == *v);
            assert(it.seq().unref().contains(*v));
        }
        let n = index.len();
        index.insert(*v, n);
    }
    proof {
        lemma_subset_equality(index@.dom(), vertices@);
    }
    index
}

/// A partition of the vertices of a graph into groups. Each group has a number
/// that identifies it.
#[derive(Debug)]
pub struct ConnectivityTracker {
    index: HashMap<u64, usize>,
    sets: DisjointSet,
}

impl ConnectivityTracker {
    /// The invariant of the tracker. The constructor establishes it and every
    /// method keeps it.
    pub closed spec fn wf(&self) -> bool {
        &&& self.sets.wf()
        &&& self.sets.spec_len() == self.index@.dom().len()
        &&& numbers(self.index@, self.index@.dom())
    }

    /// The vertices that the tracker knows.
    pub closed spec fn vertices(&self) -> Set<u64> {
        self.index@.dom()
    }

    /// The number of the group that holds `v`.
    pub closed spec fn group(&self, v: u64) -> int {
        self.sets.representative(self.index@[v] as int)
    }

    /// Whether `a` and `b` are in one group.
    pub open spec fn same_group(&self, a: u64, b: u64) -> bool {
        self.group(a) == self.group(b)
    }

    /// The tracker of the given vertices, each in a group of its own.
    pub fn new(vertices: &HashSet<u64>) -> (tracker: ConnectivityTracker)
        ensures
            tracker.wf(),
            tracker.vertices() == vertices@,
            forall|a: u64, b: u64|
                vertices@.contains(a) && vertices@.contains(b) ==> (
                #[trigger] tracker.same_group(a, b) <==> a == b),
    {
        let index = number_vertices(vertices);
        let sets = DisjointSet::new(vertices.len());
        ConnectivityTracker { index, sets }
    }

    /// Whether `v` is one of the vertices that the tracker knows.
    pub fn contains(&self, v: u64) -> (known: bool)
        ensures
            known == self.vertices().contains(v),
    {
        self.index.contains_key(&v)
    }

    /// The number of the group that holds `v`.
    ///
    /// No vertex changes its group.
    pub fn find(&mut self, v: u64) -> (group: usize)
        requires
            old(self).wf(),
            old(self).vertices().contains(v),
        ensures
            final(self).wf(),
            final(self).vertices() == old(self).vertices(),
            group == old(self).group(v),
            forall|u: u64|
                old(self).vertices().contains(u) ==> final(self).group(u) == old(self).group(u),
    {
        let i = *self.index.get(&v).unwrap();
        self.sets.find(i)
    }

    /// Whether `a` and `b` are in one group.
    ///
    /// No vertex changes its group.
    pub fn connected(&mut self, a: u64, b: u64) -> (joined: bool)
        requires
            old(self).wf(),
            old(self).vertices().contains(a),
            old(self).vertices().contains(b),
        ensures
            final(self).wf(),
            final(self).vertices() == old(self).vertices(),
            joined == old(self).same_group(a, b),
            forall|u: u64|
                old(self).vertices().contains(u) ==> final(self).group(u) == old(self).group(u),
    {
        let i = *self.index.get(&a).unwrap();
        let j = *self.index.get(&b).unwrap();
        self.sets.connected(i, j)
    }

    /// Merges the group of `a` with the group of `b`. Where the two are in one
    /// group already, nothing changes. The merged group keeps the number of one
    /// of the two; every other group keeps its own.
    pub fn union(&mut self, a: u64, b: u64)
        requires
            old(self).wf(),
            old(self).vertices().contains(a),
            old(self).vertices().contains(b),
        ensures
            final(self).wf(),
            final(self).vertices() == old(self).vertices(),
            forall|u: u64, v: u64|
                old(self).vertices().contains(u) && old(self).vertices().contains(v) ==> (
                #[trigger] final(self).same_group(u, v) <==> {
                    ||| old(self).same_group(u, v)
                    ||| old(self).same_group(u, a) && old(self).same_group(v, b)
                    ||| old(self).same_group(u, b) && old(self).same_group(v, a)
                }),
            forall|u: u64|
                ({
                    &&& old(self).vertices().contains(u)
                    &&& !old(self).same_group(u, a)
                    &&& !old(self).same_group(u, b)
                }) ==> #[trigger] final(self).group(u) == old(self).group(u),
            ({
                ||| final(self).group(a) == old(self).group(a)
                ||| final(self).group(a) == old(self).group(b)
            }),
    {
        let i = *self.index.get(&a).unwrap();
        let j = *self.index.get(&b).unwrap();
        self.sets.union(i, j);
        proof {
            assert forall|u: u64, v: u64|
                old(self).vertices().contains(u) && old(self).vertices().contains(v) implies (
            #[trigger] self.same_group(u, v) <==> {
                ||| old(self).same_group(u, v)
                ||| old(self).same_group(u, a) && old(self).same_group(v, b)
                ||| old(self).same_group(u, b) && old(self).same_group(v, a)
            }) by {
                let p = self.index@[u] as int;
                let q = self.index@[v] as int;
                assert(self.sets.same_set(p, q) <==> {
                    ||| old(self).sets.same_set(p, q)
                    ||| old(self).sets.same_set(p, i as int) && old(self).sets.same_set(q, j as int)
                    ||| old(self).sets.same_set(p, j as int) && old(self).sets.same_set(q, i as int)
                });
            }
        }
    }
}

} // verus!
