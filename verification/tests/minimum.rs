use kruskal::{DisjointSet, Edge, Graph};

/// Whether the chosen edges close no cycle, and how many components they leave.
fn forest_and_components(
    vertices: usize,
    edges: &[(usize, usize, i64)],
    chosen: u32,
) -> (bool, usize) {
    let mut sets = DisjointSet::new(vertices);
    for (i, &(a, b, _)) in edges.iter().enumerate() {
        if chosen & (1 << i) != 0 {
            if sets.connected(a, b) {
                return (false, 0);
            }
            sets.union(a, b);
        }
    }
    (true, sets.set_count())
}

/// The least total weight of a spanning forest, by trying every choice of edges.
fn least_weight_by_search(vertices: usize, edges: &[(usize, usize, i64)]) -> i64 {
    let (_, components) = {
        let mut sets = DisjointSet::new(vertices);
        for &(a, b, _) in edges {
            sets.union(a, b);
        }
        (true, sets.set_count())
    };
    let mut best: Option<i64> = None;
    for chosen in 0u32..(1 << edges.len()) {
        let (forest, left) = forest_and_components(vertices, edges, chosen);
        if forest && left == components {
            let weight: i64 = edges
                .iter()
                .enumerate()
                .filter(|(i, _)| chosen & (1 << i) != 0)
                .map(|(_, e)| e.2)
                .sum();
            if best.map_or(true, |b| weight < b) {
                best = Some(weight);
            }
        }
    }
    best.unwrap()
}

fn kruskal_of(vertices: usize, edges: &[(usize, usize, i64)]) -> Vec<Edge> {
    let mut graph = Graph::new();
    for v in 0..vertices {
        graph.add_vertex(v as u64);
    }
    for &(a, b, w) in edges {
        graph.add_edge(a as u64, b as u64, w);
    }
    graph.kruskal().unwrap()
}

fn check_against_search(vertices: usize, edges: &[(usize, usize, i64)]) {
    let forest = kruskal_of(vertices, edges);
    let weight: i64 = forest.iter().map(|e| e.weight).sum();
    assert_eq!(weight, least_weight_by_search(vertices, edges));

    // the forest closes no cycle
    let mut sets = DisjointSet::new(vertices);
    for e in &forest {
        assert!(!sets.connected(e.source as usize, e.destination as usize));
        sets.union(e.source as usize, e.destination as usize);
    }
    // and joins whatever the graph joins
    let mut all = DisjointSet::new(vertices);
    for &(a, b, _) in edges {
        all.union(a, b);
    }
    assert_eq!(forest.len(), vertices - all.set_count());
    for a in 0..vertices {
        for b in 0..vertices {
            assert_eq!(sets.connected(a, b), all.connected(a, b));
        }
    }
}

#[test]
fn forest_is_lightest_on_the_sample_graph() {
    check_against_search(
        7,
        &[
            (2, 3, 26),
            (3, 4, 3),
            (4, 6, 19),
            (6, 1, 22),
            (1, 5, 14),
            (5, 2, 22),
            (2, 1, 13),
            (1, 4, 17),
            (3, 1, 18),
        ],
    );
}

#[test]
fn forest_is_lightest_with_equal_weights() {
    check_against_search(
        5,
        &[(0, 1, 1), (1, 2, 1), (2, 0, 1), (2, 3, 1), (3, 4, 1), (4, 2, 1), (0, 4, 1)],
    );
}

#[test]
fn forest_is_lightest_with_negative_weights_and_loops() {
    check_against_search(
        6,
        &[
            (0, 1, -3),
            (1, 2, -3),
            (2, 0, -7),
            (3, 3, -9),
            (3, 4, 5),
            (4, 3, 2),
            (0, 2, 4),
            (1, 0, 0),
        ],
    );
}

#[test]
fn forest_is_lightest_on_generated_graphs() {
    let mut seed: u64 = 2024;
    for round in 0..40 {
        let vertices = 2 + round % 5;
        let count = 1 + (round * 7) % 10;
        let mut edges = Vec::new();
        for _ in 0..count {
            seed = seed.wrapping_mul(6364136223846793005).wrapping_add(1442695040888963407);
            let a = ((seed >> 20) % vertices as u64) as usize;
            let b = ((seed >> 30) % vertices as u64) as usize;
            let w = ((seed >> 40) % 9) as i64 - 3;
            edges.push((a, b, w));
        }
        check_against_search(vertices, &edges);
    }
}
