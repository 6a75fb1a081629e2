use pace::graph::penalty_digraph::PenaltyDigraph;
use pace::graph::Graph;

fn graph_with_edges(fixed: usize, free: usize, edges: &[(usize, usize)]) -> Graph {
    let mut graph = Graph::new(fixed, free);
    for &(x, f) in edges {
        graph.add_edge(x, f).unwrap();
    }
    graph
}

fn chain_graph(fixed: usize) -> Graph {
    let mut graph = Graph::new(fixed, fixed + 1);
    for i in 0..fixed {
        graph.add_edge(i, fixed + i).unwrap();
        graph.add_edge(i, fixed + i + 1).unwrap();
    }
    graph
}

fn is_permutation(order: &[usize], n: usize) -> bool {
    let mut seen = vec![false; n];
    for &v in order {
        if v >= n || seen[v] {
            return false;
        }
        seen[v] = true;
    }
    order.len() == n
}

#[test]
fn matrix_holds_crossings_of_both_orders() {
    // free 0 = id 2 -> {x1}, free 1 = id 3 -> {x0}
    let graph = graph_with_edges(2, 2, &[(0, 3), (1, 2)]);
    let matrix = PenaltyDigraph::from_graph(&graph);
    assert_eq!(matrix.cost(0, 1), 1);
    assert_eq!(matrix.cost(1, 0), 0);
    assert_eq!(matrix.cost(0, 0), 0);
    assert_eq!(matrix.cost(1, 1), 0);
}

#[test]
fn matrix_merge_counts_all_smaller_neighbors() {
    // free 0 (id 3) -> {x1, x2}; free 1 (id 4) -> {x0}
    let graph = graph_with_edges(3, 2, &[(1, 3), (2, 3), (0, 4)]);
    let matrix = PenaltyDigraph::from_graph(&graph);
    assert_eq!(matrix.cost(0, 1), 2);
    assert_eq!(matrix.cost(1, 0), 0);
}

#[test]
fn matrix_pair_sums_to_degree_product() {
    let graph = graph_with_edges(4, 2, &[(0, 4), (2, 4), (1, 5), (3, 5)]);
    let matrix = PenaltyDigraph::from_graph(&graph);
    assert_eq!(matrix.cost(0, 1) + matrix.cost(1, 0), 4);
    assert_eq!(matrix.cost(0, 1), 1);
    assert_eq!(matrix.cost(1, 0), 3);
}

#[test]
fn shared_neighbor_crosses_in_neither_order() {
    let graph = graph_with_edges(2, 2, &[(0, 2), (0, 3), (1, 3)]);
    let matrix = PenaltyDigraph::from_graph(&graph);
    // degrees 1 and 2, one shared neighbour
    assert_eq!(matrix.cost(0, 1), 0);
    assert_eq!(matrix.cost(1, 0), 1);
}

#[test]
fn new_matrix_is_zero() {
    let matrix = PenaltyDigraph::new(3);
    assert_eq!(matrix.cost(0, 2), 0);
    // with every preference tied, each node goes to the leftmost position
    assert_eq!(matrix.sort_fas(), vec![2, 1, 0]);
}

#[test]
fn empty_matrix_gives_empty_order() {
    let graph = Graph::new(3, 0);
    let matrix = PenaltyDigraph::from_graph(&graph);
    assert_eq!(matrix.sort_fas(), Vec::<usize>::new());
}

#[test]
fn solve_moves_node_before_favoured_predecessor() {
    let graph = graph_with_edges(2, 2, &[(0, 3), (1, 2)]);
    let matrix = PenaltyDigraph::from_graph(&graph);
    let order = matrix.sort_fas();
    assert_eq!(order, vec![1, 0]);
    let global: Vec<usize> = order.iter().map(|v| v + 2).collect();
    assert_eq!(graph.compute_number_of_crossings_for_ordering(&global).unwrap(), 0);
}

#[test]
fn solve_returns_a_permutation() {
    let graph = graph_with_edges(
        4,
        5,
        &[(0, 8), (0, 5), (1, 4), (1, 7), (2, 6), (2, 4), (3, 5), (3, 8), (3, 6)],
    );
    let matrix = PenaltyDigraph::from_graph(&graph);
    let order = matrix.sort_fas();
    assert!(is_permutation(&order, 5));
}

#[test]
fn solve_is_deterministic() {
    let graph = graph_with_edges(3, 4, &[(0, 6), (1, 3), (1, 5), (2, 4), (2, 3), (0, 5)]);
    let matrix = PenaltyDigraph::from_graph(&graph);
    assert_eq!(matrix.sort_fas(), matrix.sort_fas());
}

#[test]
fn chain_graph_is_solved_without_crossings() {
    let graph = chain_graph(6);
    assert_eq!(graph.compute_number_of_crossings_with_default_ordering().unwrap(), 0);
    let matrix = PenaltyDigraph::from_graph(&graph);
    let order = matrix.sort_fas();
    let global: Vec<usize> = order.iter().map(|v| v + graph.number_of_fixed_nodes()).collect();
    assert_eq!(graph.compute_number_of_crossings_for_ordering(&global).unwrap(), 0);
}
