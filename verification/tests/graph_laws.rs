//! What holds of the graphs, on chosen values.

use cid::Cid;
use cim_contextgraph::Acyclic;
use cim_contextgraph::own_component_keys;
use cim_contextgraph::CidDag;
use cim_contextgraph::CidReference;
use cim_contextgraph::Component;
use cim_contextgraph::ComponentStorage;
use cim_contextgraph::ConceptGraphId;
use cim_contextgraph::Connected;
use cim_contextgraph::ContentId;
use cim_contextgraph::ContextGraph;
use cim_contextgraph::ContextGraphId;
use cim_contextgraph::EdgeId;
use cim_contextgraph::GraphError;
use cim_contextgraph::GraphId;
use cim_contextgraph::GraphInvariant;
use cim_contextgraph::GraphReference;
use cim_contextgraph::GraphResult;
use cim_contextgraph::InvariantBox;
use cim_contextgraph::Label;
use cim_contextgraph::Metadata;
use cim_contextgraph::NodeEntry;
use cim_contextgraph::NodeId;
use cim_contextgraph::Subgraph;
use cim_contextgraph::WorkflowGraphError;
use multihash_codetable::Code;
use multihash_codetable::MultihashDigest;
use std::any::TypeId;
use uuid::Uuid;

#[derive(Debug, Clone, PartialEq)]
struct Weight(u32);

impl Component for Weight {
    fn component_name(&self) -> &'static str {
        "Weight"
    }
}

#[test]
fn removed_node_is_gone_with_its_edges() {
    let mut graph = ContextGraph::<&str, u8>::new("G");
    let a = graph.add_node("A");
    let b = graph.add_node("B");
    let c = graph.add_node("C");
    let ab = graph.add_edge(a, b, 1).unwrap();
    let bc = graph.add_edge(b, c, 2).unwrap();
    let ca = graph.add_edge(c, a, 3).unwrap();
    let bb = graph.add_edge(b, b, 4).unwrap();
    let removed = graph.remove_node(b).unwrap();
    assert_eq!(removed.id, b);
    assert_eq!(removed.value, "B");
    assert!(graph.get_node(b).is_none());
    assert_eq!(graph.edges(), vec![ca]);
    assert!(graph.get_edge(ab).is_none());
    assert!(graph.get_edge(bc).is_none());
    assert!(graph.get_edge(bb).is_none());
    for (_, edge) in graph.get_all_edges() {
        assert!(edge.source != b && edge.target != b);
    }
    // the last node has taken the place of the removed one
    assert_eq!(graph.nodes(), vec![a, c]);
    assert_eq!(graph.degree(a), 1);
    assert_eq!(graph.topological_sort().unwrap(), vec![c, a]);
}

#[test]
fn edges_never_dangle() {
    let mut graph = ContextGraph::<u8, u8>::new("G");
    let a = graph.add_node(1);
    let ghost = NodeId(a.0.wrapping_add(1));
    assert!(matches!(graph.add_edge(a, ghost, 0), Err(GraphError::NodeNotFound(id)) if id == ghost));
    assert!(matches!(graph.add_edge(ghost, a, 0), Err(GraphError::NodeNotFound(id)) if id == ghost));
    let both_missing = graph.add_edge(ghost, NodeId(ghost.0.wrapping_add(1)), 0);
    assert!(matches!(both_missing, Err(GraphError::NodeNotFound(id)) if id == ghost));
    assert_eq!(graph.edge_count(), 0);
    graph.add_edge(a, a, 0).unwrap();
    for (_, edge) in graph.get_all_edges() {
        assert!(graph.get_node(edge.source).is_some());
        assert!(graph.get_node(edge.target).is_some());
    }
}

#[test]
fn removing_twice_changes_nothing() {
    let mut graph = ContextGraph::<u8, u8>::new("G");
    let a = graph.add_node(1);
    let b = graph.add_node(2);
    let e = graph.add_edge(a, b, 7).unwrap();
    assert_eq!(graph.remove_edge(e).unwrap().value, 7);
    assert!(graph.remove_edge(e).is_none());
    assert_eq!(graph.nodes(), vec![a, b]);
    assert!(graph.remove_node(a).is_some());
    assert!(graph.remove_node(a).is_none());
    assert_eq!(graph.nodes(), vec![b]);
    assert!(graph.remove_edge(EdgeId(5)).is_none());
}

#[test]
fn component_is_found_as_it_was_added() {
    let mut storage = ComponentStorage::new();
    storage.add(Weight(7)).unwrap();
    storage.add(Label("l".to_string())).unwrap();
    assert_eq!(storage.get::<Weight>(), Some(&Weight(7)));
    assert!(storage.get::<Metadata>().is_none());
    match storage.add(Weight(8)) {
        Err(GraphError::ComponentAlreadyExists(name)) => assert_eq!(name, "Weight"),
        _ => panic!("expected ComponentAlreadyExists"),
    }
    assert_eq!(storage.get::<Weight>(), Some(&Weight(7)));
    let copy = storage.clone();
    assert_eq!(copy.get::<Weight>(), Some(&Weight(7)));
    assert_eq!(copy.len(), 2);
    let names: Vec<&str> = storage.iter().iter().map(|slot| slot.name).collect();
    assert_eq!(names, vec!["Weight", "Label"]);
    let taken = storage.remove::<Weight>().unwrap();
    assert_eq!(taken.downcast_ref::<Weight>(), Some(&Weight(7)));
    assert!(taken.downcast_ref::<Label>().is_none());
    assert!(!storage.has::<Weight>());
    assert!(storage.has::<Label>());
    assert!(storage.remove::<Weight>().is_none());
    assert_eq!(copy.get::<Weight>(), Some(&Weight(7)));
}

#[test]
fn entries_carry_components() {
    let entry = NodeEntry::with_id(NodeId(9), "n").with_component(Weight(1)).unwrap();
    assert!(entry.has_component::<Weight>());
    assert_eq!(entry.id(), NodeId(9));
    assert!(entry.with_component(Weight(2)).is_err());
}

#[test]
fn order_respects_edges_until_a_cycle_is_closed() {
    let mut graph = ContextGraph::<&str, u8>::new("G");
    let a = graph.add_node("A");
    let b = graph.add_node("B");
    let c = graph.add_node("C");
    let d = graph.add_node("D");
    graph.add_edge(a, b, 0).unwrap();
    graph.add_edge(b, c, 0).unwrap();
    graph.add_edge(c, d, 0).unwrap();
    graph.add_edge(a, d, 0).unwrap();
    let order = graph.topological_sort().unwrap();
    let at = |id: NodeId| order.iter().position(|x| *x == id).unwrap();
    assert_eq!(order.len(), 4);
    assert!(at(a) < at(b) && at(a) < at(c) && at(a) < at(d));
    assert!(at(b) < at(d) && at(c) < at(d));
    assert!(!graph.is_cyclic());
    graph.add_edge(d, a, 0).unwrap();
    assert!(graph.is_cyclic());
    assert!(matches!(graph.topological_sort(), Err(GraphError::CycleDetected)));
}

#[test]
fn cycle_and_lone_node_are_two_components() {
    let mut graph = ContextGraph::<&str, u8>::new("G");
    let a = graph.add_node("A");
    let b = graph.add_node("B");
    let c = graph.add_node("C");
    let d = graph.add_node("D");
    graph.add_edge(a, b, 0).unwrap();
    graph.add_edge(b, c, 0).unwrap();
    graph.add_edge(c, a, 0).unwrap();
    let mut parts = graph.strongly_connected_components();
    parts.sort_by_key(|part| part.len());
    assert_eq!(parts.len(), 2);
    assert_eq!(parts[0], vec![d]);
    assert_eq!(parts[1].len(), 3);
    for id in [a, b, c] {
        assert!(parts[1].contains(&id));
    }
    assert_eq!(graph.connected_component_count(), 2);
    assert!(!graph.is_connected());
    graph.add_edge(d, a, 0).unwrap();
    assert!(graph.is_connected());
}

#[test]
fn nodes_of_owned_graphs_are_counted() {
    let mut inner = ContextGraph::<u8, u8>::new("inner");
    inner.add_node(1);
    inner.add_node(2);
    inner.add_node(3);
    let mut outer = ContextGraph::<u8, u8>::new("outer");
    let owner = outer.add_node(10);
    outer.add_node(11);
    outer.get_node_mut(owner).unwrap().add_component(Subgraph { graph: Box::new(inner) }).unwrap();
    assert_eq!(outer.total_node_count(), 5);
    assert_eq!(outer.count_nodes_within(0), 2);
    assert_eq!(outer.get_subgraph_nodes(), vec![owner]);
    let mut seen = Vec::new();
    outer.visit_recursive(|graph, depth| seen.push((graph.name().to_string(), depth)));
    assert_eq!(seen, vec![("outer".to_string(), 0), ("inner".to_string(), 1)]);
    let copy = outer.clone();
    assert_eq!(copy.total_node_count(), 5);
    assert_eq!(copy.nodes(), outer.nodes());
}

#[test]
fn scenario_of_three_nodes() {
    let mut graph = ContextGraph::<&str, i32>::new("G");
    let a = graph.add_node("A");
    let b = graph.add_node("B");
    let c = graph.add_node("C");
    graph.add_edge(a, b, 1).unwrap();
    graph.add_edge(b, c, 2).unwrap();
    assert_eq!(graph.nodes().len(), 3);
    assert_eq!(graph.edges().len(), 2);
    assert!(!graph.is_cyclic());
    assert_eq!(graph.topological_sort().unwrap(), vec![a, b, c]);
    assert_eq!(graph.degree(b), 2);
    assert_eq!(graph.in_degree(b), 1);
    assert_eq!(graph.out_degree(b), 1);
    assert_eq!(graph.neighbors(b), vec![c, a]);
    assert_eq!(graph.shortest_path(a, c), Some(vec![a, b, c]));
    assert_eq!(graph.shortest_path(c, a), None);
    assert_eq!(graph.shortest_path(a, a), Some(vec![a]));
    assert_eq!(graph.shortest_path(a, NodeId(a.0.wrapping_add(77))), None);
    assert!(graph.has_path(a, c));
    assert_eq!(graph.all_simple_paths(a, c, 2), vec![vec![a, b, c]]);
    assert!(graph.all_simple_paths(a, c, 1).is_empty());
    assert!(graph.all_simple_paths(a, c, 0).is_empty());
    assert_eq!(graph.find_paths(a, b), vec![vec![a, b]]);
}

#[test]
fn simple_paths_may_close_a_cycle() {
    let mut graph = ContextGraph::<u8, u8>::new("G");
    let a = graph.add_node(0);
    let b = graph.add_node(1);
    graph.add_edge(a, b, 0).unwrap();
    graph.add_edge(b, a, 0).unwrap();
    assert_eq!(graph.all_simple_paths(a, a, 5), vec![vec![a, b, a]]);
    graph.add_edge(a, a, 0).unwrap();
    let mut paths = graph.all_simple_paths(a, a, 5);
    paths.sort_by_key(|path| path.len());
    assert_eq!(paths, vec![vec![a, a], vec![a, b, a]]);
    assert_eq!(graph.degree(a), 4);
}

#[test]
fn wished_identifiers_are_kept_where_free() {
    let mut graph = ContextGraph::<u8, u8>::new("G");
    assert_eq!(graph.add_node_with_id(NodeId(40), 0), NodeId(40));
    assert_eq!(graph.add_node_with_id(NodeId(0), 0), NodeId(0));
    assert_eq!(graph.add_node_with_id(NodeId(40), 0), NodeId(1));
    assert_eq!(graph.add_node_with_id(NodeId(0), 0), NodeId(2));
    assert_eq!(graph.add_edge_with_id(EdgeId(3), NodeId(40), NodeId(0), 0).unwrap(), EdgeId(3));
    assert_eq!(graph.add_edge_with_id(EdgeId(3), NodeId(40), NodeId(0), 0).unwrap(), EdgeId(0));
    assert_eq!(graph.get_node_index(NodeId(1)), Some(2));
    assert_eq!(graph.get_edge_index(EdgeId(0)), Some(1));
}

struct AtMostOneEdge;

impl<N, E> GraphInvariant<N, E> for AtMostOneEdge {
    fn check(&self, graph: &ContextGraph<N, E>) -> GraphResult<()> {
        if graph.edge_count() > 1 {
            Err(GraphError::InvalidOperation("too many".to_string()))
        } else {
            Ok(())
        }
    }

    fn name(&self) -> &str {
        "AtMostOneEdge"
    }
}

#[test]
fn refused_edge_is_taken_out_again() {
    let mut graph = ContextGraph::<u8, u8>::new("G");
    graph.add_invariant(InvariantBox::new(AtMostOneEdge));
    assert_eq!(graph.invariants[0].name(), "AtMostOneEdge");
    let a = graph.add_node(0);
    let b = graph.add_node(1);
    let first = graph.add_edge(a, b, 0).unwrap();
    match graph.add_edge(b, a, 1) {
        Err(GraphError::InvariantViolation(text)) => assert_eq!(text, "Invalid operation: too many"),
        _ => panic!("expected InvariantViolation"),
    }
    assert_eq!(graph.edges(), vec![first]);
    assert_eq!(graph.degree(a), 1);
    assert!(graph.check_invariants().is_ok());
    let copy = graph.clone();
    assert_eq!(copy.invariants.len(), 1);
}

#[test]
fn acyclic_and_connected_are_rules() {
    let mut graph = ContextGraph::<u8, u8>::new("G");
    graph.add_invariant(InvariantBox::new(Acyclic));
    let a = graph.add_node(0);
    let b = graph.add_node(1);
    graph.add_edge(a, b, 0).unwrap();
    match graph.add_edge(b, a, 0) {
        Err(GraphError::InvariantViolation(text)) => assert_eq!(text, "Graph contains a cycle"),
        _ => panic!("expected InvariantViolation"),
    }
    assert!(graph.add_edge(a, a, 0).is_err());
    assert_eq!(graph.edge_count(), 1);
    graph.add_node(2);
    graph.add_invariant(InvariantBox::new(Connected));
    assert!(graph.check_invariants().is_err());
    assert_eq!(graph.check_invariants().unwrap_err().to_string(), "Invariant violation: Graph is not connected");
}

#[test]
fn identifiers_and_errors_have_their_text() {
    let raw = 0x0123_4567_89ab_cdef_0123_4567_89ab_cdefu128;
    let text = Uuid::from_u128(raw).to_string();
    assert_eq!(NodeId(raw).to_string(), text);
    assert_eq!(EdgeId(raw).to_string(), text);
    assert_eq!(GraphId(raw).to_string(), text);
    assert_eq!(GraphError::NodeNotFound(NodeId(raw)).to_string(), format!("Node not found: {}", text));
    assert_eq!(GraphError::EdgeNotFound(EdgeId(raw)).to_string(), format!("Edge not found: {}", text));
    assert_eq!(GraphError::ComponentNotFound("c".to_string()).to_string(), "Component not found: c");
    assert_eq!(GraphError::CycleDetected.to_string(), "Cycle detected in DAG");
    assert_eq!(GraphError::ChainVerificationFailed.to_string(), "Chain verification failed");
    let cid = Cid::new_v1(0x55, Code::Sha2_256.digest(b"content"));
    let id = ContentId::from_bytes(cid.to_bytes());
    assert_eq!(id.to_string(), cid.to_string());
    assert_eq!(GraphError::CidNotFound(id.clone()).to_string(), format!("CID {} not found", cid));
    assert_eq!(GraphError::DuplicateCid(id).to_string(), format!("Duplicate CID {}", cid));
    assert_eq!(ContentId::from_bytes(vec![1, 2, 3]).to_string(), "");
    assert_eq!(
        WorkflowGraphError::UnreachableStates { total: 12, reachable: 7 }.to_string(),
        "Unreachable states detected: 7 of 12 states are reachable"
    );
    assert_ne!(NodeId::new(), NodeId::new());
}

#[test]
fn copy_of_a_dag_is_a_dag_of_its_own() {
    let a = ContentId::from_bytes(vec![1]);
    let b = ContentId::from_bytes(vec![2]);
    let mut dag = CidDag::<u8>::new();
    dag.add_node(a.clone(), 1, 10).unwrap();
    dag.add_node(b.clone(), 2, 20).unwrap();
    dag.add_causal_edge(a.clone(), b.clone()).unwrap();
    let mut copy = dag.clone();
    assert_eq!(copy.root_cids(), dag.root_cids());
    assert_eq!(copy.ancestors(&b), vec![a.clone()]);
    assert!(matches!(copy.add_causal_edge(b.clone(), a.clone()), Err(GraphError::CycleDetected)));
    copy.add_node(ContentId::from_bytes(vec![3]), 3, 30).unwrap();
    assert_eq!(copy.node_count(), 3);
    assert_eq!(dag.node_count(), 2);
    let shown = dag.to_context_graph();
    assert_eq!(shown.name(), "CID DAG");
    let ids = shown.nodes();
    assert_eq!(shown.get_edge(shown.edges()[0]).unwrap().source, ids[0]);
    assert_eq!(shown.get_edge(shown.edges()[0]).unwrap().target, ids[1]);
    assert_eq!(shown.get_node(ids[1]).unwrap().value.timestamp, 20);
}

struct Refuses(&'static str);

impl<N, E> GraphInvariant<N, E> for Refuses {
    fn check(&self, _graph: &ContextGraph<N, E>) -> GraphResult<()> {
        Err(GraphError::InvalidOperation(self.0.to_string()))
    }

    fn name(&self) -> &str {
        self.0
    }
}

#[test]
fn first_refusal_in_the_order_of_the_rules_is_handed_out() {
    let mut graph = ContextGraph::<u8, u8>::new("G");
    assert!(graph.check_invariants().is_ok());
    graph.add_invariant(InvariantBox::new(Acyclic));
    graph.add_invariant(InvariantBox::new(Refuses("second")));
    graph.add_invariant(InvariantBox::new(Refuses("third")));
    match graph.check_invariants() {
        Err(GraphError::InvalidOperation(text)) => assert_eq!(text, "second"),
        _ => panic!("expected the refusal of the second rule"),
    }
    let mut other = ContextGraph::<u8, u8>::new("H");
    other.add_invariant(InvariantBox::new(Refuses("first")));
    other.add_invariant(InvariantBox::new(Connected));
    match other.check_invariants() {
        Err(GraphError::InvalidOperation(text)) => assert_eq!(text, "first"),
        _ => panic!("expected the refusal of the first rule"),
    }
}

#[test]
fn rules_in_boxes_keep_their_names() {
    assert_eq!(InvariantBox::<u8, u8>::new(Acyclic).name(), "Acyclic");
    assert_eq!(InvariantBox::<u8, u8>::new(Connected).name(), "Connected");
    assert_eq!(InvariantBox::<u8, u8>::new(Refuses("r")).name(), "r");
    assert_eq!(GraphInvariant::<u8, u8>::name(&Acyclic), "Acyclic");
    assert_eq!(GraphInvariant::<u8, u8>::name(&Connected), "Connected");
    let copy = InvariantBox::<u8, u8>::new(Connected).clone();
    assert_eq!(copy.name(), "Connected");
}

fn has_random_form(raw: u128) -> bool {
    raw & 0xF000_C000_0000_0000_0000 == 0x4000_8000_0000_0000_0000
}

#[test]
fn new_identifiers_are_random_uuids() {
    for _ in 0..64 {
        assert!(has_random_form(NodeId::new().0));
        assert!(has_random_form(EdgeId::new().0));
        assert!(has_random_form(GraphId::new().0));
        assert!(has_random_form(ContextGraphId::new().0));
        assert!(has_random_form(ConceptGraphId::new().0));
    }
    let id = NodeId::new();
    let parsed = Uuid::parse_str(&id.to_string()).unwrap();
    assert_eq!(parsed.as_u128(), id.0);
    assert_eq!(parsed.get_version_num(), 4);
    assert!(!has_random_form(0));
    assert_ne!(NodeId::new(), NodeId::new());
}

#[test]
fn component_types_of_the_library_differ() {
    let keys = own_component_keys::<u8, String>();
    assert_eq!(keys[0], TypeId::of::<Label>());
    assert_eq!(keys[1], TypeId::of::<Metadata>());
    assert_eq!(keys[2], TypeId::of::<GraphReference>());
    assert_eq!(keys[3], TypeId::of::<CidReference>());
    assert_eq!(keys[4], TypeId::of::<Subgraph<u8, String>>());
    for i in 0..5 {
        for j in 0..5 {
            assert_eq!(keys[i] == keys[j], i == j);
        }
    }
    let mut storage = ComponentStorage::new();
    storage.add(Label("a".to_string())).unwrap();
    assert!(storage.get::<Metadata>().is_none());
    assert!(storage.get::<GraphReference>().is_none());
    assert!(storage.get::<Label>().is_some());
    assert_eq!(storage.len(), 1);
    storage.add(Metadata::default()).unwrap();
    assert!(storage.add(Label("b".to_string())).is_err());
    assert!(storage.remove::<Metadata>().is_some());
    assert_eq!(storage.len(), 1);
    assert!(!storage.is_empty());
}

struct NoSelfLoop;

impl<N, E> GraphInvariant<N, E> for NoSelfLoop {
    fn check(&self, graph: &ContextGraph<N, E>) -> GraphResult<()> {
        if graph.edge_entries().iter().any(|edge| edge.source == edge.target) {
            Err(GraphError::InvariantViolation("Self-loops are not allowed".to_string()))
        } else {
            Ok(())
        }
    }

    fn name(&self) -> &str {
        "NoSelfLoop"
    }
}

#[test]
fn edge_is_kept_exactly_where_the_rules_accept_it() {
    let mut graph = ContextGraph::<&str, i32>::new("T");
    graph.add_invariant(InvariantBox::new(NoSelfLoop));
    let a = graph.add_node("A");
    let b = graph.add_node("B");
    let first = graph.add_edge(a, b, 1).unwrap();
    let entry = graph.get_edge(first).unwrap();
    assert_eq!((entry.id, entry.source, entry.target, entry.value), (first, a, b, 1));
    assert!(entry.components.is_empty());
    match graph.add_edge(a, a, 2) {
        Err(GraphError::InvariantViolation(text)) => assert!(text.contains("Self-loops")),
        _ => panic!("expected InvariantViolation"),
    }
    assert_eq!(graph.edge_count(), 1);
    assert_eq!(graph.degree(a), 1);
    assert!(graph.check_invariants().is_ok());
    let second = graph.add_edge(a, b, 3).unwrap();
    assert_ne!(first, second);
    assert_eq!(graph.edges(), vec![first, second]);
    assert_eq!(graph.node_count(), 2);
}

#[test]
fn each_simple_path_is_listed_once() {
    let mut graph = ContextGraph::<u8, u8>::new("G");
    let n1 = graph.add_node(1);
    let n2 = graph.add_node(2);
    let n3 = graph.add_node(3);
    let n4 = graph.add_node(4);
    graph.add_edge(n1, n2, 0).unwrap();
    graph.add_edge(n1, n3, 0).unwrap();
    graph.add_edge(n2, n4, 0).unwrap();
    graph.add_edge(n3, n4, 0).unwrap();
    let mut paths = graph.all_simple_paths(n1, n4, 10);
    assert_eq!(paths.len(), 2);
    paths.sort_by_key(|path| path[1] != n2);
    assert_eq!(paths, vec![vec![n1, n2, n4], vec![n1, n3, n4]]);
    assert_eq!(graph.all_simple_paths(n1, n4, 2).len(), 2);
    assert_eq!(graph.all_simple_paths(n1, n4, 1).len(), 0);
    assert_eq!(graph.find_paths(n1, n4).len(), 2);
    // a second arc from n1 to n2 is a second way to take the path over n2
    graph.add_edge(n1, n2, 0).unwrap();
    assert_eq!(graph.all_simple_paths(n1, n4, 10).len(), 3);
}

#[test]
fn visitor_is_called_with_each_graph_in_order() {
    let mut inner = ContextGraph::<String, String>::new("S");
    for name in ["a", "b", "c"] {
        inner.add_node(name.to_string());
    }
    let mut outer = ContextGraph::<String, String>::new("P");
    outer.add_node("X".to_string());
    let y = outer.add_node("Y".to_string());
    outer.get_node_mut(y).unwrap().add_component(Subgraph { graph: Box::new(inner) }).unwrap();
    let mut seen = Vec::new();
    outer.visit_recursive(|graph, depth| seen.push((graph.node_count(), depth)));
    assert_eq!(seen, vec![(2, 0), (3, 1)]);
    assert_eq!(outer.node_count(), 2);
}

#[test]
fn nodes_and_edges_are_found_after_removals() {
    let mut graph = ContextGraph::<usize, usize>::new("G");
    let nodes: Vec<NodeId> = (0..50).map(|i| graph.add_node(i)).collect();
    let edges: Vec<EdgeId> = (0..49).map(|i| graph.add_edge(nodes[i], nodes[i + 1], i).unwrap()).collect();
    for i in (0..50).step_by(3) {
        assert_eq!(graph.remove_node(nodes[i]).map(|entry| entry.value), Some(i));
    }
    assert!(graph.remove_edge(edges[1]).is_some());
    assert!(graph.remove_edge(edges[1]).is_none());
    for (i, id) in nodes.iter().enumerate() {
        if i % 3 == 0 {
            assert_eq!(graph.get_node_index(*id), None);
            assert!(graph.get_node(*id).is_none());
        } else {
            let at = graph.get_node_index(*id).unwrap();
            assert_eq!(graph.node_entries()[at].id, *id);
            assert_eq!(graph.get_node(*id).unwrap().value, i);
        }
    }
    for (i, id) in edges.iter().enumerate() {
        let kept = i % 3 != 0 && (i + 1) % 3 != 0 && i != 1;
        assert_eq!(graph.get_edge(*id).map(|entry| entry.value), if kept { Some(i) } else { None });
        if kept {
            let at = graph.get_edge_index(*id).unwrap();
            assert_eq!(graph.edge_entries()[at].id, *id);
        }
    }
    let copy = graph.clone();
    assert_eq!(copy.get_node(nodes[1]).unwrap().value, 1);
    assert_eq!(copy.nodes(), graph.nodes());
    let again = graph.add_node_with_id(nodes[0], 500);
    assert_eq!(again, nodes[0]);
    assert_eq!(graph.get_node(again).unwrap().value, 500);
    assert!(copy.get_node(again).is_none());
}
