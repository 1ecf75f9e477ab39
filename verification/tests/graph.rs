use kruskal::{Edge, Graph};

#[test]
fn new_graph_is_empty() {
    let graph = Graph::new();
    assert_eq!(graph.vertex_count(), 0);
    assert_eq!(graph.edge_count(), 0);
    assert!(graph.edges().is_empty());
    assert!(!graph.contains_vertex(0));
}

#[test]
fn default_graph_is_empty() {
    let graph = Graph::default();
    assert_eq!(graph.vertex_count(), 0);
    assert_eq!(graph.edge_count(), 0);
}

#[test]
fn add_vertex_twice_adds_it_once() {
    let mut graph = Graph::new();
    graph.add_vertex(3);
    graph.add_vertex(3);
    graph.add_vertex(8);
    assert_eq!(graph.vertex_count(), 2);
    assert!(graph.contains_vertex(3));
    assert!(graph.contains_vertex(8));
    assert!(!graph.contains_vertex(5));
}

#[test]
fn add_edge_appends() {
    let mut graph = Graph::new();
    graph.add_edge(1, 2, 10);
    graph.add_edge(1, 2, 10);
    graph.add_edge(2, 1, -3);
    assert_eq!(graph.edge_count(), 3);
    assert_eq!(
        graph.edges(),
        &vec![Edge::new(1, 2, 10), Edge::new(1, 2, 10), Edge::new(2, 1, -3)]
    );
    // edges do not add vertices
    assert_eq!(graph.vertex_count(), 0);
}

#[test]
fn calls_can_be_chained() {
    let mut graph = Graph::new();
    graph
        .add_vertex(1)
        .add_vertex(2)
        .add_edge(1, 2, 4)
        .add_vertex(3)
        .add_edge(2, 3, 1);
    assert_eq!(graph.vertex_count(), 3);
    assert_eq!(graph.edge_count(), 2);
    assert_eq!(graph.edges()[1], Edge::new(2, 3, 1));
}

#[test]
fn clone_has_the_same_vertices_and_edges() {
    let mut graph = Graph::new();
    graph.add_vertex(1).add_vertex(2).add_vertex(30).add_edge(2, 1, 4).add_edge(30, 1, 2);
    let mut copy = graph.clone();
    assert_eq!(copy.vertex_count(), 3);
    assert!(copy.contains_vertex(1) && copy.contains_vertex(2) && copy.contains_vertex(30));
    assert_eq!(copy.edges(), graph.edges());
    // the copy is a graph of its own
    copy.add_vertex(4).add_edge(4, 1, 0);
    assert_eq!(graph.vertex_count(), 3);
    assert_eq!(graph.edge_count(), 2);
    assert_eq!(copy.kruskal().unwrap().len(), 3);
    assert_eq!(graph.edges()[0], Edge::new(2, 1, 4));
}

#[test]
fn edge_new_sets_the_fields() {
    let e = Edge::new(7, 9, -2);
    assert_eq!(e.source, 7);
    assert_eq!(e.destination, 9);
    assert_eq!(e.weight, -2);
    assert_eq!(e, Edge { source: 7, destination: 9, weight: -2 });
    assert_ne!(e, Edge::new(9, 7, -2));
}
