use kruskal::{Edge, Graph, GraphError};

const TEST_DATA: [(u64, u64, i64); 9] = [
    (2, 3, 26),
    (3, 4, 3),
    (4, 6, 19),
    (6, 1, 22),
    (1, 5, 14),
    (5, 2, 22),
    (2, 1, 13),
    (1, 4, 17),
    (3, 1, 18),
];

fn sample_graph() -> Graph {
    let mut graph = Graph::new();
    for i in 1..=6 {
        graph.add_vertex(i);
    }
    for data in TEST_DATA {
        graph.add_edge(data.0, data.1, data.2);
    }
    graph
}

fn triples(edges: &[Edge]) -> Vec<(u64, u64, i64)> {
    edges.iter().map(|e| (e.source, e.destination, e.weight)).collect()
}

fn total(edges: &[Edge]) -> i64 {
    edges.iter().map(|e| e.weight).sum()
}

#[test]
fn test_kruskal() {
    let mut graph = Graph::new();
    for i in 1..=6 {
        graph.add_vertex(i);
    }
    for data in TEST_DATA {
        graph.add_edge(data.0, data.1, data.2);
    }
    let edges = graph.kruskal().unwrap();
    assert_eq!(edges.len(), graph.vertex_count() - 1)
}

#[test]
fn six_vertices_give_the_expected_forest() {
    let mut graph = sample_graph();
    let edges = graph.kruskal().unwrap();
    assert_eq!(
        triples(&edges),
        vec![(3, 4, 3), (2, 1, 13), (1, 5, 14), (1, 4, 17), (4, 6, 19)]
    );
    assert_eq!(edges.len(), 5);
    assert_eq!(total(&edges), 66);
}

#[test]
fn isolated_vertex_stays_out_of_the_forest() {
    let mut graph = Graph::new();
    graph.add_vertex(1).add_vertex(2).add_vertex(3);
    graph.add_edge(1, 2, 5);
    let edges = graph.kruskal().unwrap();
    assert_eq!(triples(&edges), vec![(1, 2, 5)]);
    // three vertices in two components
    assert_eq!(edges.len(), 3 - 2);
}

#[test]
fn unknown_source_is_an_error() {
    let mut graph = Graph::new();
    graph.add_vertex(1).add_vertex(2);
    graph.add_edge(1, 2, 4).add_edge(7, 2, 1);
    assert_eq!(graph.kruskal(), Err(GraphError::UnknownVertex));
}

#[test]
fn unknown_destination_is_an_error() {
    let mut graph = Graph::new();
    graph.add_vertex(1).add_vertex(2);
    graph.add_edge(1, 2, 4).add_edge(2, 9, 1);
    assert_eq!(graph.kruskal(), Err(GraphError::UnknownVertex));
}

#[test]
fn an_error_leaves_the_graph_as_it_was() {
    let mut graph = Graph::new();
    graph.add_vertex(1).add_vertex(2);
    graph.add_edge(1, 2, 9).add_edge(2, 1, 4).add_edge(1, 3, 1);
    assert!(graph.kruskal().is_err());
    assert_eq!(triples(graph.edges()), vec![(1, 2, 9), (2, 1, 4), (1, 3, 1)]);
    assert_eq!(graph.vertex_count(), 2);
}

#[test]
fn edge_added_before_its_vertices_is_accepted() {
    let mut graph = Graph::new();
    graph.add_edge(1, 2, 3);
    assert_eq!(graph.kruskal(), Err(GraphError::UnknownVertex));
    graph.add_vertex(1).add_vertex(2);
    let edges = graph.kruskal().unwrap();
    assert_eq!(triples(&edges), vec![(1, 2, 3)]);
}

#[test]
fn empty_graph_has_an_empty_forest() {
    let mut graph = Graph::new();
    assert_eq!(graph.kruskal(), Ok(Vec::new()));
}

#[test]
fn vertices_without_edges_have_an_empty_forest() {
    let mut graph = Graph::new();
    graph.add_vertex(4).add_vertex(5);
    assert_eq!(graph.kruskal(), Ok(Vec::new()));
}

#[test]
fn loop_at_a_vertex_is_left_out() {
    let mut graph = Graph::new();
    graph.add_vertex(1).add_vertex(2);
    graph.add_edge(1, 1, -5).add_edge(1, 2, 7);
    let edges = graph.kruskal().unwrap();
    assert_eq!(triples(&edges), vec![(1, 2, 7)]);
}

#[test]
fn of_two_edges_between_two_vertices_the_lighter_is_taken() {
    let mut graph = Graph::new();
    graph.add_vertex(1).add_vertex(2);
    graph.add_edge(1, 2, 7).add_edge(2, 1, 6).add_edge(1, 2, 8);
    let edges = graph.kruskal().unwrap();
    assert_eq!(triples(&edges), vec![(2, 1, 6)]);
}

#[test]
fn negative_weights_come_first() {
    let mut graph = Graph::new();
    graph.add_vertex(1).add_vertex(2).add_vertex(3);
    graph.add_edge(1, 2, 0).add_edge(2, 3, -4).add_edge(3, 1, -1);
    let edges = graph.kruskal().unwrap();
    assert_eq!(triples(&edges), vec![(2, 3, -4), (3, 1, -1)]);
    assert_eq!(total(&edges), -5);
}

#[test]
fn extreme_weights_are_ordered() {
    let mut graph = Graph::new();
    graph.add_vertex(0).add_vertex(u64::MAX).add_vertex(5);
    graph
        .add_edge(0, u64::MAX, i64::MAX)
        .add_edge(u64::MAX, 5, i64::MIN)
        .add_edge(5, 0, 0);
    let edges = graph.kruskal().unwrap();
    assert_eq!(triples(&edges), vec![(u64::MAX, 5, i64::MIN), (5, 0, 0)]);
}

#[test]
fn forest_has_vertices_minus_components_edges() {
    // components: {1, 2, 3}, {4, 5}, {6}, {7}
    let mut graph = Graph::new();
    for v in 1..=7 {
        graph.add_vertex(v);
    }
    graph
        .add_edge(1, 2, 4)
        .add_edge(2, 3, 4)
        .add_edge(3, 1, 4)
        .add_edge(4, 5, 1)
        .add_edge(5, 4, 2);
    let edges = graph.kruskal().unwrap();
    assert_eq!(edges.len(), 7 - 4);
    assert_eq!(triples(&edges), vec![(4, 5, 1), (1, 2, 4), (2, 3, 4)]);
}

#[test]
fn kruskal_sorts_the_edges_of_the_graph() {
    let mut graph = sample_graph();
    graph.kruskal().unwrap();
    assert_eq!(
        triples(graph.edges()),
        vec![
            (3, 4, 3),
            (2, 1, 13),
            (1, 5, 14),
            (1, 4, 17),
            (3, 1, 18),
            (4, 6, 19),
            (6, 1, 22),
            (5, 2, 22),
            (2, 3, 26),
        ]
    );
    assert_eq!(graph.vertex_count(), 6);
}

#[test]
fn second_call_gives_the_same_forest() {
    let mut graph = sample_graph();
    let first = graph.kruskal().unwrap();
    let sorted = graph.edges().clone();
    let second = graph.kruskal().unwrap();
    assert_eq!(first, second);
    assert_eq!(&sorted, graph.edges());
}

#[test]
fn equal_weights_are_taken_in_insertion_order() {
    let mut graph = Graph::new();
    graph.add_vertex(1).add_vertex(2).add_vertex(3);
    graph.add_edge(1, 2, 5).add_edge(2, 3, 5).add_edge(3, 1, 5);
    assert_eq!(
        triples(&graph.kruskal().unwrap()),
        vec![(1, 2, 5), (2, 3, 5)]
    );

    let mut graph = Graph::new();
    graph.add_vertex(1).add_vertex(2).add_vertex(3);
    graph.add_edge(3, 1, 5).add_edge(2, 3, 5).add_edge(1, 2, 5);
    assert_eq!(
        triples(&graph.kruskal().unwrap()),
        vec![(3, 1, 5), (2, 3, 5)]
    );
}

#[test]
fn order_among_different_weights_does_not_matter() {
    // The edges of weight 5 keep their order, as do those of weight 2; how the
    // two weights are mixed differs.
    let mut first = Graph::new();
    let mut second = Graph::new();
    for v in 1..=4 {
        first.add_vertex(v);
        second.add_vertex(v);
    }
    first
        .add_edge(1, 2, 5)
        .add_edge(3, 4, 2)
        .add_edge(2, 3, 5)
        .add_edge(4, 1, 2)
        .add_edge(1, 3, 5);
    second
        .add_edge(3, 4, 2)
        .add_edge(4, 1, 2)
        .add_edge(1, 2, 5)
        .add_edge(2, 3, 5)
        .add_edge(1, 3, 5);
    let a = first.kruskal().unwrap();
    let b = second.kruskal().unwrap();
    assert_eq!(a, b);
    assert_eq!(triples(&a), vec![(3, 4, 2), (4, 1, 2), (1, 2, 5)]);
    assert_eq!(first.edges(), second.edges());
}

#[test]
fn vertex_order_does_not_matter() {
    let mut forward = Graph::new();
    let mut backward = Graph::new();
    for v in 1..=6 {
        forward.add_vertex(v);
        backward.add_vertex(7 - v);
    }
    for data in TEST_DATA {
        forward.add_edge(data.0, data.1, data.2);
        backward.add_edge(data.0, data.1, data.2);
    }
    assert_eq!(forward.kruskal(), backward.kruskal());
}
