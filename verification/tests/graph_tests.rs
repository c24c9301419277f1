use linked_seq::graph::Graph;
use linked_seq::graph::NodeNotInGraph;
use linked_seq::graph::UndirectedGraph;

#[test]
fn test_add_edge() {
    let mut graph = UndirectedGraph::new();
    graph.add_edge(("a", "b", 5));
    graph.add_edge(("b", "c", 10));
    graph.add_edge(("c", "a", 7));

    let expected_edges = [
        ("a".to_string(), "b".to_string(), 5),
        ("b".to_string(), "a".to_string(), 5),
        ("c".to_string(), "a".to_string(), 7),
        ("a".to_string(), "c".to_string(), 7),
        ("b".to_string(), "c".to_string(), 10),
        ("c".to_string(), "b".to_string(), 10),
    ];

    for edge in &expected_edges {
        assert!(graph.edges().contains(edge));
    }
}

#[test]
fn add_node_reports_presence() {
    let mut graph = UndirectedGraph::new();
    assert!(graph.add_node("a"));
    assert!(!graph.add_node("a"));
    assert!(graph.contains("a"));
    assert!(!graph.contains("b"));
    assert_eq!(vec!["a".to_string()], graph.nodes());
}

#[test]
fn add_edge_creates_missing_nodes() {
    let mut graph = UndirectedGraph::new();
    graph.add_edge(("x", "y", 3));
    assert!(graph.contains("x"));
    assert!(graph.contains("y"));
    assert_eq!(vec!["x".to_string(), "y".to_string()], graph.nodes());
    let edges = graph.edges();
    assert_eq!(2, edges.len());
    assert_eq!(("x".to_string(), "y".to_string(), 3), edges[0]);
    assert_eq!(("y".to_string(), "x".to_string(), 3), edges[1]);
}

#[test]
fn self_loop_keeps_both_half_edges() {
    let mut graph = UndirectedGraph::new();
    graph.add_edge(("a", "a", 1));
    assert_eq!(vec!["a".to_string()], graph.nodes());
    let edges = graph.edges();
    assert_eq!(2, edges.len());
    assert_eq!(("a".to_string(), "a".to_string(), 1), edges[0]);
    assert_eq!(("a".to_string(), "a".to_string(), 1), edges[1]);
}

#[test]
fn error_message_text() {
    let error = NodeNotInGraph;
    assert_eq!("accessing a node that is not in the graph", error.message());
}

#[test]
fn adjacency_table_lists_neighbours() {
    let mut graph = UndirectedGraph::new();
    graph.add_edge(("a", "b", 5));
    let table = graph.adjacency_table();
    assert_eq!(2, table.len());
    assert_eq!("a", table[0].0);
    assert_eq!(vec![("b".to_string(), 5)], table[0].1);
    assert_eq!("b", table[1].0);
    assert_eq!(vec![("a".to_string(), 5)], table[1].1);
}
