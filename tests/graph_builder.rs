use pace::application::{Application, BenchmarkStats};
use pace::error::Error;
use pace::graph::penalty_digraph::PenaltyDigraph;
use pace::graph_builder::{GraphBuilder, PLineInfo};

fn lines(text: &[&str]) -> Vec<String> {
    text.iter().map(|l| l.to_string()).collect()
}

#[test]
fn edge_line_with_two_numbers() {
    assert_eq!(GraphBuilder::parse_edge_line("1 4"), Some((1, 4)));
    assert_eq!(GraphBuilder::parse_edge_line("+12 007"), Some((12, 7)));
}

#[test]
fn edge_line_rejects_other_shapes() {
    assert_eq!(GraphBuilder::parse_edge_line("1  4"), None);
    assert_eq!(GraphBuilder::parse_edge_line("1 4 5"), None);
    assert_eq!(GraphBuilder::parse_edge_line("1"), None);
    assert_eq!(GraphBuilder::parse_edge_line("a 4"), None);
    assert_eq!(GraphBuilder::parse_edge_line("-1 4"), None);
    assert_eq!(GraphBuilder::parse_edge_line("+ 4"), None);
    assert_eq!(GraphBuilder::parse_edge_line(""), None);
}

#[test]
fn edge_line_rejects_numbers_that_do_not_fit() {
    assert_eq!(GraphBuilder::parse_edge_line("99999999999999999999999 1"), None);
    let max = format!("{} 1", usize::MAX);
    assert_eq!(GraphBuilder::parse_edge_line(&max), Some((usize::MAX, 1)));
}

#[test]
fn header_line_values() {
    let info = PLineInfo::build("p ocr 2 3 4").unwrap();
    assert_eq!(info.descriptor, b"ocr".to_vec());
    assert_eq!(info.number_of_fixed_nodes, 2);
    assert_eq!(info.number_of_free_nodes, 3);
    assert_eq!(info.number_of_edges, 4);
}

#[test]
fn header_line_rejects_other_shapes() {
    assert!(PLineInfo::build("q ocr 2 3 4").is_none());
    assert!(PLineInfo::build("p ocr 2 3").is_none());
    assert!(PLineInfo::build("p ocr 2 x 4").is_none());
    assert!(PLineInfo::build("").is_none());
}

#[test]
fn text_builds_graph() {
    let text = lines(&["c a comment", "p ocr 2 2 2", "1 4", "", "c another", "2 3"]);
    let graph = GraphBuilder::build_graph_from_lines(&text).unwrap();
    assert_eq!(graph.number_of_fixed_nodes(), 2);
    assert_eq!(graph.number_of_free_nodes(), 2);
    assert_eq!(graph.number_of_edges(), 2);
    assert_eq!(graph.does_edge_exist(0, 3).unwrap(), true);
    assert_eq!(graph.does_edge_exist(1, 2).unwrap(), true);
    assert_eq!(graph.compute_number_of_crossings_with_default_ordering().unwrap(), 1);
}

#[test]
fn text_without_header_is_a_parse_error() {
    let text = lines(&["c nothing", "1 3"]);
    assert!(matches!(GraphBuilder::build_graph_from_lines(&text), Err(Error::ParseError(_))));
}

#[test]
fn text_with_bad_header_is_a_parse_error() {
    let text = lines(&["p ocr 2 2", "1 3"]);
    assert!(matches!(GraphBuilder::build_graph_from_lines(&text), Err(Error::ParseError(_))));
}

#[test]
fn text_with_bad_edge_line_is_a_parse_error() {
    let text = lines(&["p ocr 2 2 1", "1 x"]);
    assert!(matches!(GraphBuilder::build_graph_from_lines(&text), Err(Error::ParseError(_))));
}

#[test]
fn text_with_edge_outside_layers_is_an_index_error() {
    let text = lines(&["p ocr 2 2 1", "3 4"]);
    assert!(matches!(GraphBuilder::build_graph_from_lines(&text), Err(Error::IndexError(_))));
    let text = lines(&["p ocr 2 2 1", "0 4"]);
    assert!(matches!(GraphBuilder::build_graph_from_lines(&text), Err(Error::IndexError(_))));
}

#[test]
fn text_with_wrong_edge_count_is_a_parse_error() {
    let text = lines(&["p ocr 2 2 3", "1 3", "1 3", "2 4"]);
    assert!(matches!(GraphBuilder::build_graph_from_lines(&text), Err(Error::ParseError(_))));
    let text = lines(&["p ocr 2 2 2", "1 3", "1 3", "2 4"]);
    assert_eq!(GraphBuilder::build_graph_from_lines(&text).unwrap().number_of_edges(), 2);
}

#[test]
fn random_graph_has_requested_edges() {
    let graph = GraphBuilder::build_random_graph(5, 4, 12).unwrap();
    assert_eq!(graph.number_of_fixed_nodes(), 5);
    assert_eq!(graph.number_of_free_nodes(), 4);
    assert_eq!(graph.number_of_edges(), 12);
    let complete = GraphBuilder::build_random_graph(3, 3, 9).unwrap();
    for x in 0..3 {
        for f in 3..6 {
            assert!(complete.does_edge_exist(x, f).unwrap());
        }
    }
}

#[test]
fn random_graph_with_too_many_edges_is_a_value_error() {
    assert!(matches!(GraphBuilder::build_random_graph(2, 3, 7), Err(Error::ValueError(_))));
    assert!(matches!(GraphBuilder::build_random_graph(0, 3, 1), Err(Error::ValueError(_))));
}

#[test]
fn random_graph_can_be_solved() {
    let graph = GraphBuilder::build_random_graph(20, 15, 60).unwrap();
    let matrix = PenaltyDigraph::from_graph(&graph);
    let order = matrix.sort_fas();
    let global: Vec<usize> = order.iter().map(|v| v + 20).collect();
    assert_eq!(order.len(), 15);
    assert!(graph.compute_number_of_crossings_for_ordering(&global).is_ok());
}

#[test]
fn application_and_stats_build() {
    let _application = Application::new();
    let stats = BenchmarkStats {
        number_of_fixed_nodes: 1,
        number_of_free_nodes: 2,
        number_of_edges: 3,
        loading_elapsed: 4,
        reduction_elapsed: 5,
        ordering_elapsed: 6,
    };
    assert_eq!(stats.number_of_edges, 3);
}
