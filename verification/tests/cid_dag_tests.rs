//! Chains of events and stores of objects in the content-addressed graph.

use cid::Cid;
use cim_contextgraph::CidDag;
use cim_contextgraph::CidReference;
use cim_contextgraph::ContentId;
use cim_contextgraph::EventDag;
use cim_contextgraph::EventNode;
use cim_contextgraph::GraphError;
use cim_contextgraph::ObjectDag;
use cim_contextgraph::ObjectNode;
use multihash_codetable::Code;
use multihash_codetable::MultihashDigest;

/// The identifier of the content: the raw codec over its SHA-256 digest.
fn create_test_cid(content: &str) -> ContentId {
    let hash = Code::Sha2_256.digest(content.as_bytes());
    ContentId::from_bytes(Cid::new_v1(0x55, hash).to_bytes())
}

/// Test basic event chain creation and verification
#[test]
fn test_event_chain_creation() {
    let mut event_dag = EventDag::new();

    // Create events for an order aggregate
    let event1 = EventNode {
        event_id: "evt-001".to_string(),
        aggregate_id: "order-123".to_string(),
        event_type: "OrderCreated".to_string(),
        sequence: 1,
        payload_cid: None,
    };

    let event2 = EventNode {
        event_id: "evt-002".to_string(),
        aggregate_id: "order-123".to_string(),
        event_type: "PaymentProcessed".to_string(),
        sequence: 2,
        payload_cid: None,
    };

    let event3 = EventNode {
        event_id: "evt-003".to_string(),
        aggregate_id: "order-123".to_string(),
        event_type: "OrderShipped".to_string(),
        sequence: 3,
        payload_cid: None,
    };

    // Create CIDs for events
    let cid1 = create_test_cid("evt-001");
    let cid2 = create_test_cid("evt-002");
    let cid3 = create_test_cid("evt-003");

    // Build the chain
    event_dag.add_event(cid1.clone(), None, event1, 1000).unwrap();
    event_dag.add_event(cid2.clone(), Some(cid1.clone()), event2, 2000).unwrap();
    event_dag.add_event(cid3.clone(), Some(cid2.clone()), event3, 3000).unwrap();

    // Verify the chain
    let chain = event_dag.verify_chain(&cid3, Some(&cid1)).unwrap();
    assert_eq!(chain.len(), 3);
    assert_eq!(chain[0], cid1.clone());
    assert_eq!(chain[1], cid2.clone());
    assert_eq!(chain[2], cid3.clone());

    // Get all events for the aggregate
    let aggregate_events = event_dag.get_aggregate_events("order-123");
    assert_eq!(aggregate_events.len(), 3);

    // Verify they're in sequence order
    assert_eq!(aggregate_events[0].1.sequence, 1);
    assert_eq!(aggregate_events[1].1.sequence, 2);
    assert_eq!(aggregate_events[2].1.sequence, 3);
}

/// Test event with object store references
#[test]
fn test_event_with_object_references() {
    let mut event_dag = EventDag::new();
    let mut object_dag = ObjectDag::new();

    // First, store a large object (e.g., invoice PDF)
    let invoice_object = ObjectNode {
        object_type: "application/pdf".to_string(),
        size: 1024 * 50, // 50KB
        mime_type: Some("application/pdf".to_string()),
        chunks: vec![], // No chunking for small file
    };

    let invoice_cid = create_test_cid("invoice-content");
    object_dag.add_object(invoice_cid.clone(), invoice_object, 1000).unwrap();

    // Create an event that references the object
    let event = EventNode {
        event_id: "evt-invoice".to_string(),
        aggregate_id: "order-456".to_string(),
        event_type: "InvoiceGenerated".to_string(),
        sequence: 1,
        payload_cid: Some(invoice_cid.clone()), // Reference to object store
    };

    let event_cid = create_test_cid("evt-invoice");
    event_dag.add_event(event_cid.clone(), None, event, 2000).unwrap();

    // Verify the reference was created
    let stored_event = event_dag.get_node(&event_cid).unwrap();
    assert_eq!(stored_event.content.payload_cid, Some(invoice_cid.clone()));
}

/// Test chunked object storage
#[test]
fn test_chunked_object_storage() {
    let mut object_dag = ObjectDag::new();

    // Store chunks first
    let chunk1_cid = create_test_cid("chunk-1");
    let chunk2_cid = create_test_cid("chunk-2");
    let chunk3_cid = create_test_cid("chunk-3");

    let chunk1 = ObjectNode {
        object_type: "chunk".to_string(),
        size: 1024 * 1024, // 1MB each
        mime_type: None,
        chunks: vec![],
    };

    object_dag.add_object(chunk1_cid.clone(), chunk1.clone(), 1000).unwrap();
    object_dag.add_object(chunk2_cid.clone(), chunk1.clone(), 1001).unwrap();
    object_dag.add_object(chunk3_cid.clone(), chunk1.clone(), 1002).unwrap();

    // Store main object referencing chunks
    let large_file = ObjectNode {
        object_type: "video/mp4".to_string(),
        size: 1024 * 1024 * 3, // 3MB total
        mime_type: Some("video/mp4".to_string()),
        chunks: vec![chunk1_cid.clone(), chunk2_cid.clone(), chunk3_cid.clone()],
    };

    let file_cid = create_test_cid("large-video");
    object_dag.add_object(file_cid.clone(), large_file, 2000).unwrap();

    // Retrieve chunks
    let chunks = object_dag.get_object_chunks(&file_cid);
    assert_eq!(chunks.len(), 3);
    assert_eq!(chunks[0], chunk1_cid.clone());
    assert_eq!(chunks[1], chunk2_cid.clone());
    assert_eq!(chunks[2], chunk3_cid.clone());
}

/// Test DAG properties - no cycles allowed
#[test]
fn test_dag_cycle_prevention() {
    let mut dag = CidDag::<String>::new();

    let cid1 = create_test_cid("node-1");
    let cid2 = create_test_cid("node-2");
    let cid3 = create_test_cid("node-3");

    // Create a valid chain
    dag.add_node(cid1.clone(), "First".to_string(), 1000).unwrap();
    dag.add_node(cid2.clone(), "Second".to_string(), 2000).unwrap();
    dag.add_node(cid3.clone(), "Third".to_string(), 3000).unwrap();

    dag.add_causal_edge(cid1.clone(), cid2.clone()).unwrap();
    dag.add_causal_edge(cid2.clone(), cid3.clone()).unwrap();

    // Try to create a cycle
    let cycle_result = dag.add_causal_edge(cid3.clone(), cid1.clone());
    assert!(matches!(cycle_result, Err(GraphError::CycleDetected)));
}

/// Test finding common ancestors (useful for merge operations)
#[test]
fn test_common_ancestor_finding() {
    let mut event_dag = EventDag::new();

    // Create a fork in the event chain
    //       root
    //      /    \
    //    e1      e2
    //    |       |
    //    e3      e4

    let root_cid = create_test_cid("root");
    let e1_cid = create_test_cid("e1");
    let e2_cid = create_test_cid("e2");
    let e3_cid = create_test_cid("e3");
    let e4_cid = create_test_cid("e4");

    // Add root event
    event_dag.add_event(root_cid.clone(), None, EventNode {
        event_id: "root".to_string(),
        aggregate_id: "agg-1".to_string(),
        event_type: "Created".to_string(),
        sequence: 1,
        payload_cid: None,
    }, 1000).unwrap();

    // Fork into two branches
    event_dag.add_event(e1_cid.clone(), Some(root_cid.clone()), EventNode {
        event_id: "e1".to_string(),
        aggregate_id: "agg-1".to_string(),
        event_type: "BranchA".to_string(),
        sequence: 2,
        payload_cid: None,
    }, 2000).unwrap();

    event_dag.add_event(e2_cid.clone(), Some(root_cid.clone()), EventNode {
        event_id: "e2".to_string(),
        aggregate_id: "agg-1".to_string(),
        event_type: "BranchB".to_string(),
        sequence: 2,
        payload_cid: None,
    }, 2001).unwrap();

    // Continue branches
    event_dag.add_event(e3_cid.clone(), Some(e1_cid.clone()), EventNode {
        event_id: "e3".to_string(),
        aggregate_id: "agg-1".to_string(),
        event_type: "ContinueA".to_string(),
        sequence: 3,
        payload_cid: None,
    }, 3000).unwrap();

    event_dag.add_event(e4_cid.clone(), Some(e2_cid.clone()), EventNode {
        event_id: "e4".to_string(),
        aggregate_id: "agg-1".to_string(),
        event_type: "ContinueB".to_string(),
        sequence: 3,
        payload_cid: None,
    }, 3001).unwrap();

    // Find common ancestor of the two branch tips
    let common = event_dag.common_ancestor(&e3_cid, &e4_cid);
    assert_eq!(common, Some(root_cid.clone()));
}

/// Test converting CidDag to ContextGraph for visualization
#[test]
fn test_dag_to_context_graph_conversion() {
    let mut event_dag = EventDag::new();

    // Create a simple chain
    let cid1 = create_test_cid("evt-1");
    let cid2 = create_test_cid("evt-2");

    event_dag.add_event(cid1.clone(), None, EventNode {
        event_id: "evt-1".to_string(),
        aggregate_id: "agg-1".to_string(),
        event_type: "Started".to_string(),
        sequence: 1,
        payload_cid: None,
    }, 1000).unwrap();

    event_dag.add_event(cid2.clone(), Some(cid1.clone()), EventNode {
        event_id: "evt-2".to_string(),
        aggregate_id: "agg-1".to_string(),
        event_type: "Completed".to_string(),
        sequence: 2,
        payload_cid: None,
    }, 2000).unwrap();

    // Convert to ContextGraph for visualization
    let context_graph = event_dag.to_context_graph();

    // Verify structure is preserved
    assert_eq!(context_graph.nodes().len(), 2);
    assert_eq!(context_graph.edges().len(), 1);

    // Verify CID components are attached
    let nodes_with_cid = context_graph.query_nodes_with_component::<CidReference>();
    assert_eq!(nodes_with_cid.len(), 2);
}

/// The usual pattern: a chain of events, one of which refers to an object.
#[test]
fn test_event_sourcing_pattern() {
    let mut event_dag = EventDag::new();

    // This test demonstrates the typical event sourcing pattern
    // where events form a chain with optional references to objects

    let order_created = EventNode {
        event_id: "evt-001".to_string(),
        aggregate_id: "order-789".to_string(),
        event_type: "OrderCreated".to_string(),
        sequence: 1,
        payload_cid: None,
    };

    let invoice_cid = create_test_cid("invoice-pdf");
    let payment_processed = EventNode {
        event_id: "evt-002".to_string(),
        aggregate_id: "order-789".to_string(),
        event_type: "PaymentProcessed".to_string(),
        sequence: 2,
        payload_cid: Some(invoice_cid.clone()), // References invoice in object store
    };

    let order_shipped = EventNode {
        event_id: "evt-003".to_string(),
        aggregate_id: "order-789".to_string(),
        event_type: "OrderShipped".to_string(),
        sequence: 3,
        payload_cid: None,
    };

    // Build the event chain
    let cid1 = create_test_cid("evt-001-content");
    let cid2 = create_test_cid("evt-002-content");
    let cid3 = create_test_cid("evt-003-content");

    event_dag.add_event(cid1.clone(), None, order_created, 1000).unwrap();
    event_dag.add_event(cid2.clone(), Some(cid1.clone()), payment_processed, 2000).unwrap();
    event_dag.add_event(cid3.clone(), Some(cid2.clone()), order_shipped, 3000).unwrap();

    // Verify integrity
    let chain = event_dag.verify_chain(&cid3, Some(&cid1)).unwrap();
    assert_eq!(chain.len(), 3);

    // Get latest state
    let latest = event_dag.latest_cids();
    assert_eq!(latest.len(), 1);
    assert_eq!(latest[0], cid3.clone());
}

/// Test error handling for invalid operations
#[test]
fn cid_dag_tests_test_error_handling() {
    let mut dag = CidDag::<String>::new();

    let cid1 = create_test_cid("node-1");
    let cid2 = create_test_cid("node-2");
    let fake_cid = create_test_cid("fake");

    // Add a node
    dag.add_node(cid1.clone(), "First".to_string(), 1000).unwrap();

    // Try to add duplicate CID
    let duplicate_result = dag.add_node(cid1.clone(), "Duplicate".to_string(), 2000);
    assert!(matches!(duplicate_result, Err(GraphError::DuplicateCid(_))));

    // Try to add edge with non-existent node
    let edge_result = dag.add_causal_edge(cid1.clone(), fake_cid.clone());
    assert!(matches!(edge_result, Err(GraphError::CidNotFound(_))));

    // Try to verify chain with wrong root
    dag.add_node(cid2.clone(), "Second".to_string(), 2000).unwrap();
    dag.add_causal_edge(cid1.clone(), cid2.clone()).unwrap();

    let verify_result = dag.verify_chain(&cid2, Some(&fake_cid));
    assert!(matches!(verify_result, Err(GraphError::ChainVerificationFailed)));
}

/// A chain of two events, verified from its end to its start.
#[test]
fn test_event_chain() {
    let mut event_dag = EventDag::new();

    let cid1 = create_test_cid("evt-1");
    let cid2 = create_test_cid("evt-2");

    let event1 = EventNode {
        event_id: "evt-1".to_string(),
        aggregate_id: "agg-1".to_string(),
        event_type: "Created".to_string(),
        sequence: 1,
        payload_cid: None,
    };

    let event2 = EventNode {
        event_id: "evt-2".to_string(),
        aggregate_id: "agg-1".to_string(),
        event_type: "Updated".to_string(),
        sequence: 2,
        payload_cid: None,
    };

    event_dag.add_event(cid1.clone(), None, event1, 1000).unwrap();
    event_dag.add_event(cid2.clone(), Some(cid1.clone()), event2, 2000).unwrap();

    let chain = event_dag.verify_chain(&cid2, Some(&cid1)).unwrap();
    assert_eq!(chain.len(), 2);
    assert_eq!(chain[0], cid1);
    assert_eq!(chain[1], cid2);

    let ancestors = event_dag.ancestors(&cid2);
    assert_eq!(ancestors.len(), 1);
    assert_eq!(ancestors[0], cid1);
}
