//! Minimum spanning forests of weighted, undirected graphs, by Kruskal's
//! algorithm.
//!
//! A [`Graph`] holds a set of vertices and a list of weighted edges.
//! [`Graph::kruskal`] sorts the edges by weight and takes them in turn, each
//! where it joins two vertices that the edges taken before it do not join. What
//! it returns is proved to be a spanning forest of the graph of least total
//! weight.
//!
//! - [`edge`] and [`graph`]: the data, and the algorithm.
//! - [`disjoint_set`] and [`tracker`]: which vertices are joined so far, kept in
//!   a disjoint-set forest with path compression and union by rank.
//! - [`sorting`]: the stable order of the edges by weight.
//! - [`connectivity`], [`forest`], [`components`] and [`minimality`]: what it
//!   means that edges join two vertices, that they form a forest, how many
//!   connected components a graph has, and why the forest that is built has the
//!   least total weight.

pub mod components;
pub mod connectivity;
pub mod disjoint_set;
pub mod edge;
pub mod forest;
pub mod graph;
pub mod minimality;
pub mod sorting;
pub mod tracker;

pub use disjoint_set::DisjointSet;
pub use edge::Edge;
pub use graph::{Graph, GraphError, GraphView};
pub use tracker::ConnectivityTracker;
