//! Rules that a graph can be held to.

use vstd::prelude::*;

use crate::context_graph::ContextGraph;
use crate::context_graph::GraphInvariant;
use crate::types::GraphError;
use crate::types::GraphErrorView;
use crate::types::GraphResult;
use crate::walks::has_cycle;
use crate::walks::is_connected;

verus! {

/// The rule that a graph has no cycle.
#[derive(Debug, Clone, Copy)]
pub struct Acyclic;

/// The rule that a graph is connected.
#[derive(Debug, Clone, Copy)]
pub struct Connected;

impl<N, E> GraphInvariant<N, E> for Acyclic {
    /// `Ok` where the graph has no cycle, else the refusal that says so.
    open spec fn spec_check(&self, graph: &ContextGraph<N, E>) -> Result<(), GraphErrorView> {
        if has_cycle(graph.links()) {
            Err(GraphErrorView::InvariantViolation("Graph contains a cycle"@))
        } else {
            Ok(())
        }
    }

    open spec fn spec_name(&self) -> Seq<char> {
        "Acyclic"@
    }

    /// `Ok` exactly where the graph has no cycle.
    fn check(&self, graph: &ContextGraph<N, E>) -> (r: GraphResult<()>)
        ensures
            r is Ok <==> !has_cycle(graph.links()),
            r matches Err(e) ==> e is InvariantViolation && e->InvariantViolation_0@
                == "Graph contains a cycle"@,
    {
        if graph.is_cyclic() {
            Err(GraphError::InvariantViolation("Graph contains a cycle".to_owned()))
        } else {
            Ok(())
        }
    }

    fn name(&self) -> &str {
        "Acyclic"
    }
}

impl<N, E> GraphInvariant<N, E> for Connected {
    /// `Ok` where every node reaches every node, the direction of the edges
    /// left aside, else the refusal that says so.
    open spec fn spec_check(&self, graph: &ContextGraph<N, E>) -> Result<(), GraphErrorView> {
        if is_connected(graph.links(), graph.node_ids()) {
            Ok(())
        } else {
            Err(GraphErrorView::InvariantViolation("Graph is not connected"@))
        }
    }

    open spec fn spec_name(&self) -> Seq<char> {
        "Connected"@
    }

    /// `Ok` exactly where every node reaches every node, the direction of
    /// the edges left aside.
    fn check(&self, graph: &ContextGraph<N, E>) -> (r: GraphResult<()>)
        ensures
            r is Ok <==> is_connected(graph.links(), graph.node_ids()),
            r matches Err(e) ==> e is InvariantViolation && e->InvariantViolation_0@
                == "Graph is not connected"@,
    {
        if graph.is_connected() {
            Ok(())
        } else {
            Err(GraphError::InvariantViolation("Graph is not connected".to_owned()))
        }
    }

    fn name(&self) -> &str {
        "Connected"
    }
}

} // verus!
