//! Further cases of the content-addressed graph.

use cim_contextgraph::CidDag;
use cim_contextgraph::ContentId;
use cim_contextgraph::GraphError;

fn cid(text: &str) -> ContentId {
    ContentId::from_bytes(text.as_bytes().to_vec())
}

#[test]
fn chain_of_three_is_verified() {
    let mut dag = CidDag::<String>::new();
    dag.add_node(cid("1"), "a".to_string(), 1).unwrap();
    dag.add_node(cid("2"), "b".to_string(), 2).unwrap();
    dag.add_node(cid("3"), "c".to_string(), 3).unwrap();
    dag.add_causal_edge(cid("1"), cid("2")).unwrap();
    dag.add_causal_edge(cid("2"), cid("3")).unwrap();
    let chain = dag.verify_chain(&cid("3"), Some(&cid("1"))).unwrap();
    assert_eq!(chain, vec![cid("1"), cid("2"), cid("3")]);
    assert!(matches!(
        dag.verify_chain(&cid("3"), Some(&cid("2"))),
        Err(GraphError::ChainVerificationFailed)
    ));
}

#[test]
fn refused_cycle_leaves_roots_and_leaves() {
    let mut dag = CidDag::<String>::new();
    dag.add_node(cid("1"), "a".to_string(), 1).unwrap();
    dag.add_node(cid("2"), "b".to_string(), 2).unwrap();
    dag.add_node(cid("3"), "c".to_string(), 3).unwrap();
    dag.add_causal_edge(cid("1"), cid("2")).unwrap();
    dag.add_causal_edge(cid("2"), cid("3")).unwrap();
    let roots = dag.root_cids().clone();
    let leaves = dag.latest_cids().clone();
    assert!(matches!(dag.add_causal_edge(cid("3"), cid("1")), Err(GraphError::CycleDetected)));
    assert!(matches!(dag.add_causal_edge(cid("2"), cid("2")), Err(GraphError::CycleDetected)));
    assert_eq!(dag.root_cids(), &roots);
    assert_eq!(dag.latest_cids(), &leaves);
    assert_eq!(roots, vec![cid("1")]);
    assert_eq!(leaves, vec![cid("3")]);
    assert_eq!(dag.edge_count(), 2);
}

#[test]
fn kin_are_listed_latest_first() {
    let mut dag = CidDag::<u8>::new();
    for name in ["a", "b", "c", "d"] {
        dag.add_node(cid(name), 0, 0).unwrap();
    }
    dag.add_causal_edge(cid("a"), cid("b")).unwrap();
    dag.add_causal_edge(cid("a"), cid("c")).unwrap();
    dag.add_reference(cid("b"), cid("d")).unwrap();
    dag.add_causal_edge(cid("c"), cid("d")).unwrap();
    assert_eq!(dag.ancestors(&cid("d")), vec![cid("c"), cid("b"), cid("a")]);
    assert_eq!(dag.descendants(&cid("a")), vec![cid("d"), cid("c"), cid("b")]);
    assert!(dag.ancestors(&cid("a")).is_empty());
    assert!(dag.ancestors(&cid("zz")).is_empty());
    assert_eq!(dag.common_ancestor(&cid("b"), &cid("c")), Some(cid("a")));
    assert_eq!(dag.common_ancestor(&cid("a"), &cid("d")), None);
    // at d the causal edge from c is the only causal one
    assert_eq!(dag.verify_chain(&cid("d"), None).unwrap(), vec![cid("a"), cid("c"), cid("d")]);
}

#[test]
fn merge_follows_the_first_causal_edge() {
    let mut dag = CidDag::<u8>::new();
    for name in ["x", "y", "m"] {
        dag.add_node(cid(name), 0, 0).unwrap();
    }
    dag.add_causal_edge(cid("y"), cid("m")).unwrap();
    dag.add_causal_edge(cid("x"), cid("m")).unwrap();
    assert_eq!(dag.verify_chain(&cid("m"), None).unwrap(), vec![cid("y"), cid("m")]);
    assert!(dag.verify_chain(&cid("m"), Some(&cid("x"))).is_err());
    assert!(matches!(
        dag.verify_chain(&cid("nowhere"), Some(&cid("x"))),
        Err(GraphError::ChainVerificationFailed)
    ));
    assert_eq!(dag.verify_chain(&cid("nowhere"), Some(&cid("nowhere"))).unwrap(), vec![cid("nowhere")]);
    assert_eq!(dag.verify_chain(&cid("nowhere"), None).unwrap(), vec![cid("nowhere")]);
}

#[test]
fn missing_ends_are_named_in_order() {
    let mut dag = CidDag::<u8>::new();
    dag.add_node(cid("a"), 0, 0).unwrap();
    match dag.add_causal_edge(cid("p"), cid("q")) {
        Err(GraphError::CidNotFound(c)) => assert_eq!(c, cid("p")),
        _ => panic!("expected CidNotFound"),
    }
    match dag.add_reference(cid("a"), cid("q")) {
        Err(GraphError::CidNotFound(c)) => assert_eq!(c, cid("q")),
        _ => panic!("expected CidNotFound"),
    }
    match dag.add_node(cid("a"), 1, 1) {
        Err(GraphError::DuplicateCid(c)) => assert_eq!(c, cid("a")),
        _ => panic!("expected DuplicateCid"),
    }
    assert_eq!(dag.node_count(), 1);
}

#[test]
fn new_nodes_have_no_metadata() {
    let mut dag = CidDag::<u8>::new();
    dag.add_node(cid("a"), 1, 10).unwrap();
    dag.add_node(cid("b"), 2, 20).unwrap();
    dag.add_causal_edge(cid("a"), cid("b")).unwrap();
    let node = dag.get_node(&cid("a")).unwrap();
    assert!(node.metadata.is_empty());
    assert_eq!((node.content, node.timestamp), (1, 10));
    let graph = dag.to_context_graph();
    assert_eq!(graph.edge_count(), 1);
    assert!(graph.edge_entries()[0].value.metadata.is_empty());
}
