//! The algorithms and the queries by component on small graphs.

use cim_contextgraph::ContextGraph;
use cim_contextgraph::Label;

fn check_algorithms() {
    let mut graph = ContextGraph::<&str, i32>::new("TestGraph");

    let a = graph.add_node("A");
    let b = graph.add_node("B");
    let c = graph.add_node("C");
    let d = graph.add_node("D");

    graph.add_edge(a, b, 1).unwrap();
    graph.add_edge(b, c, 2).unwrap();
    graph.add_edge(c, d, 3).unwrap();
    graph.add_edge(a, d, 10).unwrap();

    // Test shortest path
    let path = graph.shortest_path(a, d);
    assert!(path.is_some());

    // Test cycle detection
    assert!(!graph.is_cyclic());

    // Add cycle
    graph.add_edge(d, a, 4).unwrap();
    assert!(graph.is_cyclic());

    // Test topological sort (should fail with cycle)
    assert!(graph.topological_sort().is_err());
}

fn check_component_queries() {
    let mut graph = ContextGraph::<String, f64>::new("ComponentTest");

    let n1 = graph.add_node("Node1".to_string());
    let _n2 = graph.add_node("Node2".to_string());
    let n3 = graph.add_node("Node3".to_string());

    // Add labels to some nodes
    graph
        .get_node_mut(n1)
        .unwrap()
        .add_component(Label("Important".to_string()))
        .unwrap();
    graph
        .get_node_mut(n3)
        .unwrap()
        .add_component(Label("Also Important".to_string()))
        .unwrap();

    let labeled = graph.query_nodes_with_component::<Label>();
    assert_eq!(labeled.len(), 2);
    assert!(labeled.contains(&n1));
    assert!(labeled.contains(&n3));
}

#[test]
fn context_graph_test_petgraph_algorithms() {
    check_algorithms();
}

#[test]
fn context_graph_test_component_queries_with_petgraph() {
    check_component_queries();
}

#[test]
fn context_graph_v2_test_petgraph_algorithms() {
    check_algorithms();
}

#[test]
fn context_graph_v2_test_component_queries_with_petgraph() {
    check_component_queries();
}
