use kruskal::sorting::stable_sort_by_weight;
use kruskal::Edge;

fn edges(list: &[(u64, u64, i64)]) -> Vec<Edge> {
    list.iter().map(|&(s, d, w)| Edge::new(s, d, w)).collect()
}

#[test]
fn sort_orders_by_weight() {
    let mut list = edges(&[(1, 2, 9), (2, 3, -1), (3, 4, 4), (4, 5, 0)]);
    stable_sort_by_weight(&mut list);
    assert_eq!(list, edges(&[(2, 3, -1), (4, 5, 0), (3, 4, 4), (1, 2, 9)]));
}

#[test]
fn sort_keeps_the_order_of_equal_weights() {
    let mut list = edges(&[
        (1, 0, 2),
        (2, 0, 1),
        (3, 0, 2),
        (4, 0, 1),
        (5, 0, 2),
        (6, 0, 1),
        (7, 0, 0),
    ]);
    stable_sort_by_weight(&mut list);
    assert_eq!(
        list,
        edges(&[
            (7, 0, 0),
            (2, 0, 1),
            (4, 0, 1),
            (6, 0, 1),
            (1, 0, 2),
            (3, 0, 2),
            (5, 0, 2),
        ])
    );
}

#[test]
fn sort_of_nothing_and_of_one() {
    let mut none: Vec<Edge> = Vec::new();
    stable_sort_by_weight(&mut none);
    assert!(none.is_empty());
    let mut one = edges(&[(4, 4, 4)]);
    stable_sort_by_weight(&mut one);
    assert_eq!(one, edges(&[(4, 4, 4)]));
}

#[test]
fn sort_agrees_with_the_standard_stable_sort() {
    let mut list: Vec<Edge> = Vec::new();
    let mut seed: u64 = 12345;
    for i in 0..500u64 {
        seed = seed.wrapping_mul(6364136223846793005).wrapping_add(1442695040888963407);
        let weight = ((seed >> 33) % 17) as i64 - 8;
        list.push(Edge::new(i, i + 1, weight));
    }
    let mut expected = list.clone();
    expected.sort_by_key(|e| e.weight);
    stable_sort_by_weight(&mut list);
    assert_eq!(list, expected);
}

#[test]
fn sort_of_a_sorted_list_changes_nothing() {
    let mut list = edges(&[(9, 8, -3), (1, 2, 0), (2, 1, 0), (5, 5, 12)]);
    let before = list.clone();
    stable_sort_by_weight(&mut list);
    assert_eq!(list, before);
}
