use kruskal::{ConnectivityTracker, DisjointSet};
use std::collections::HashSet;

#[test]
fn new_disjoint_set_has_singletons() {
    let mut sets = DisjointSet::new(4);
    assert_eq!(sets.len(), 4);
    assert_eq!(sets.set_count(), 4);
    for i in 0..4 {
        assert_eq!(sets.find(i), i);
    }
    assert!(!sets.connected(0, 1));
    assert!(sets.connected(2, 2));
}

#[test]
fn empty_disjoint_set() {
    let sets = DisjointSet::new(0);
    assert_eq!(sets.len(), 0);
    assert_eq!(sets.set_count(), 0);
}

#[test]
fn union_merges_two_sets() {
    let mut sets = DisjointSet::new(5);
    sets.union(0, 1);
    assert!(sets.connected(0, 1));
    assert!(sets.connected(1, 0));
    assert!(!sets.connected(0, 2));
    assert_eq!(sets.set_count(), 4);
    assert_eq!(sets.find(0), sets.find(1));
    // at equal rank the representative of the first stays
    assert_eq!(sets.find(1), 0);
}

#[test]
fn union_within_one_set_changes_nothing() {
    let mut sets = DisjointSet::new(3);
    sets.union(0, 1);
    sets.union(1, 0);
    sets.union(0, 0);
    assert_eq!(sets.set_count(), 2);
    assert!(!sets.connected(0, 2));
}

#[test]
fn union_is_transitive_over_three_groups() {
    let mut sets = DisjointSet::new(6);
    sets.union(0, 1);
    sets.union(2, 3);
    sets.union(4, 5);
    assert_eq!(sets.set_count(), 3);
    sets.union(1, 2);
    sets.union(3, 4);
    assert_eq!(sets.set_count(), 1);
    for i in 0..6 {
        for j in 0..6 {
            assert!(sets.connected(i, j));
        }
    }
    let root = sets.find(0);
    for i in 0..6 {
        assert_eq!(sets.find(i), root);
    }
}

#[test]
fn higher_rank_keeps_its_representative() {
    let mut sets = DisjointSet::new(3);
    sets.union(1, 2);
    // the set of 1 and 2 has rank one, that of 0 rank zero
    sets.union(0, 1);
    assert_eq!(sets.find(0), 1);
    assert_eq!(sets.find(2), 1);
    assert_eq!(sets.set_count(), 1);
}

#[test]
fn find_leaves_the_partition_alone() {
    let mut sets = DisjointSet::new(8);
    for i in 0..7 {
        if i != 3 {
            sets.union(i, i + 1);
        }
    }
    let before: Vec<usize> = (0..8).map(|i| sets.find(i)).collect();
    let again: Vec<usize> = (0..8).map(|i| sets.find(i)).collect();
    assert_eq!(before, again);
    assert_eq!(sets.set_count(), 2);
    assert!(sets.connected(0, 3));
    assert!(sets.connected(4, 7));
    assert!(!sets.connected(3, 4));
}

#[test]
fn tracker_starts_with_every_vertex_alone() {
    let vertices: HashSet<u64> = [10, 20, 30].into_iter().collect();
    let mut tracker = ConnectivityTracker::new(&vertices);
    assert!(tracker.connected(10, 10));
    assert!(!tracker.connected(10, 20));
    assert!(!tracker.connected(20, 30));
    assert_ne!(tracker.find(10), tracker.find(30));
}

#[test]
fn tracker_union_joins_groups() {
    let vertices: HashSet<u64> = [1, 2, 3, 4, 1000].into_iter().collect();
    let mut tracker = ConnectivityTracker::new(&vertices);
    tracker.union(1, 2);
    tracker.union(3, 4);
    assert!(tracker.connected(2, 1));
    assert!(tracker.connected(3, 4));
    assert!(!tracker.connected(1, 3));
    tracker.union(2, 3);
    assert!(tracker.connected(1, 4));
    assert!(!tracker.connected(1, 1000));
    assert_eq!(tracker.find(1), tracker.find(4));
    assert_ne!(tracker.find(1), tracker.find(1000));
    tracker.union(1, 4);
    assert!(!tracker.connected(4, 1000));
}

#[test]
fn tracker_knows_its_vertices() {
    let vertices: HashSet<u64> = [7, 8].into_iter().collect();
    let tracker = ConnectivityTracker::new(&vertices);
    assert!(tracker.contains(7));
    assert!(tracker.contains(8));
    assert!(!tracker.contains(9));
    let none = ConnectivityTracker::new(&HashSet::new());
    assert!(!none.contains(0));
}
