//! Composable graphs whose nodes and edges carry typed values and components.

pub mod cid_dag;
pub mod component;
pub mod context_graph;
pub mod dag_shape;
pub mod fresh;
pub mod index;
pub mod invariants;
pub mod kinds;
pub mod stable_shape;
pub mod subgraph;
pub mod topology;
pub mod types;
pub mod walks;
pub mod workflow;
pub mod workflow_graph;

pub use component::Component;
pub use component::ComponentBox;
pub use component::ComponentSlot;
pub use component::ComponentStorage;
pub use types::ConceptGraphId;
pub use types::ContentId;
pub use types::ContextGraphId;
pub use types::EdgeEntry;
pub use types::EdgeId;
pub use types::GraphError;
pub use types::GraphErrorView;
pub use types::GraphReference;
pub use types::GraphResult;
pub use types::Label;
pub use types::Metadata;
pub use types::NodeEntry;
pub use types::NodeId;
pub use context_graph::ContextGraph;
pub use context_graph::GraphInvariant;
pub use context_graph::InvariantBox;
pub use subgraph::Subgraph;
pub use cid_dag::CidDag;
pub use cid_dag::CidEdge;
pub use cid_dag::CidEdgeType;
pub use cid_dag::CidNode;
pub use cid_dag::CidReference;
pub use cid_dag::EventDag;
pub use cid_dag::EventNode;
pub use cid_dag::ObjectDag;
pub use cid_dag::ObjectNode;
pub use types::GraphId;
pub use workflow::EnrichmentType;
pub use workflow::EnrichmentValue;
pub use workflow::SimpleInput;
pub use workflow::SimpleOutput;
pub use workflow::SimpleState;
pub use workflow::SimpleTransition;
pub use workflow::StateId;
pub use workflow::TransitionInput;
pub use workflow::TransitionOutput;
pub use workflow::WorkflowContext;
pub use workflow::WorkflowState;
pub use workflow::WorkflowTransition;
pub use workflow::WorkflowType;
pub use workflow_graph::TransitionBox;
pub use workflow_graph::WorkflowGraph;
pub use workflow_graph::WorkflowGraphError;
pub use workflow_graph::WorkflowMetadata;
pub use invariants::Acyclic;
pub use kinds::own_component_keys;
pub use invariants::Connected;
