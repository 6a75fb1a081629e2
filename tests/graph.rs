use pace::error::Error;
use pace::graph::Graph;

fn graph_with_edges(fixed: usize, free: usize, edges: &[(usize, usize)]) -> Graph {
    let mut graph = Graph::new(fixed, free);
    for &(x, f) in edges {
        graph.add_edge(x, f).unwrap();
    }
    graph
}

#[test]
fn new_graph_is_empty() {
    let graph = Graph::new(3, 4);
    assert_eq!(graph.number_of_nodes(), 7);
    assert_eq!(graph.number_of_fixed_nodes(), 3);
    assert_eq!(graph.number_of_free_nodes(), 4);
    assert_eq!(graph.number_of_edges(), 0);
    assert_eq!(graph.compute_number_of_crossings_with_default_ordering().unwrap(), 0);
}

#[test]
fn single_crossing_pair() {
    // fixed x0, x1 = 0, 1; free f0, f1 = 2, 3; edges (x0, f1) and (x1, f0)
    let graph = graph_with_edges(2, 2, &[(0, 3), (1, 2)]);
    assert_eq!(graph.compute_number_of_crossings_with_default_ordering().unwrap(), 1);
    assert_eq!(graph.compute_number_of_crossings_for_ordering(&vec![3, 2]).unwrap(), 0);
    assert_eq!(graph.compute_number_of_crossings_for_ordering(&vec![2, 3]).unwrap(), 1);
}

#[test]
fn add_edge_twice_keeps_count() {
    let mut graph = Graph::new(2, 2);
    assert_eq!(graph.add_edge(0, 2).unwrap(), true);
    assert_eq!(graph.number_of_edges(), 1);
    assert_eq!(graph.add_edge(0, 2).unwrap(), false);
    assert_eq!(graph.number_of_edges(), 1);
}

#[test]
fn add_edge_rejects_ids_outside_their_layer() {
    let mut graph = Graph::new(2, 2);
    assert!(matches!(graph.add_edge(2, 3), Err(Error::IndexError(_))));
    assert!(matches!(graph.add_edge(0, 1), Err(Error::IndexError(_))));
    assert!(matches!(graph.add_edge(0, 4), Err(Error::IndexError(_))));
    assert!(matches!(graph.add_edge(5, 2), Err(Error::IndexError(_))));
    assert_eq!(graph.number_of_edges(), 0);
}

#[test]
fn edge_existence_is_symmetric() {
    let graph = graph_with_edges(2, 3, &[(0, 4), (1, 2)]);
    assert_eq!(graph.does_edge_exist(0, 4).unwrap(), true);
    assert_eq!(graph.does_edge_exist(4, 0).unwrap(), true);
    assert_eq!(graph.does_edge_exist(2, 1).unwrap(), true);
    assert_eq!(graph.does_edge_exist(0, 2).unwrap(), false);
    assert_eq!(graph.does_edge_exist(0, 1).unwrap(), false);
}

#[test]
fn edge_existence_rejects_out_of_range() {
    let graph = graph_with_edges(2, 3, &[(0, 4)]);
    assert!(matches!(graph.does_edge_exist(5, 0), Err(Error::IndexError(_))));
    assert!(matches!(graph.does_edge_exist(0, 5), Err(Error::IndexError(_))));
}

#[test]
fn ordering_missing_an_id_is_rejected() {
    let graph = graph_with_edges(2, 3, &[(0, 4), (1, 2)]);
    assert!(matches!(
        graph.compute_number_of_crossings_for_ordering(&vec![2, 3]),
        Err(Error::ValueError(_))
    ));
    assert!(matches!(
        graph.compute_number_of_crossings_for_ordering(&vec![2, 3, 3]),
        Err(Error::ValueError(_))
    ));
}

#[test]
fn ordering_with_out_of_range_id_is_rejected() {
    let graph = graph_with_edges(2, 3, &[(0, 4), (1, 2)]);
    assert!(matches!(
        graph.compute_number_of_crossings_for_ordering(&vec![2, 3, 5]),
        Err(Error::ValueError(_))
    ));
    assert!(matches!(
        graph.compute_number_of_crossings_for_ordering(&vec![1, 2, 3]),
        Err(Error::ValueError(_))
    ));
    assert!(matches!(
        graph.compute_number_of_crossings_for_ordering(&vec![2, 3, 4, 4]),
        Err(Error::ValueError(_))
    ));
}

#[test]
fn identity_ordering_matches_default() {
    let graph = graph_with_edges(
        3,
        4,
        &[(0, 6), (0, 4), (1, 3), (1, 5), (2, 3), (2, 6), (0, 3)],
    );
    let identity: Vec<usize> = (3..7).collect();
    assert_eq!(
        graph.compute_number_of_crossings_for_ordering(&identity).unwrap(),
        graph.compute_number_of_crossings_with_default_ordering().unwrap()
    );
}

#[test]
fn crossing_count_exact_value() {
    // x0 -> {f2, f3}, x1 -> {f0, f1}: every edge of x1 crosses every edge of x0
    let graph = graph_with_edges(2, 4, &[(0, 4), (0, 5), (1, 2), (1, 3)]);
    assert_eq!(graph.compute_number_of_crossings_with_default_ordering().unwrap(), 4);
    assert_eq!(graph.compute_number_of_crossings_for_ordering(&vec![4, 5, 2, 3]).unwrap(), 0);
    assert_eq!(graph.compute_number_of_crossings_for_ordering(&vec![4, 2, 5, 3]).unwrap(), 1);
}

#[test]
fn mirrored_graph_with_reversed_ordering_has_same_crossings() {
    let edges = [(0, 4), (0, 6), (1, 3), (1, 5), (2, 3), (2, 4), (2, 6)];
    let graph = graph_with_edges(3, 4, &edges);
    let mirrored_edges: Vec<(usize, usize)> = edges.iter().map(|&(x, f)| (2 - x, f)).collect();
    let mirrored = graph_with_edges(3, 4, &mirrored_edges);
    let ordering = vec![5, 3, 6, 4];
    let reversed: Vec<usize> = ordering.iter().rev().cloned().collect();
    assert_eq!(
        graph.compute_number_of_crossings_for_ordering(&ordering).unwrap(),
        mirrored.compute_number_of_crossings_for_ordering(&reversed).unwrap()
    );
}
