//! The shape of a workflow, kept in a `petgraph` stable graph without
//! weights. Nodes and arcs are known by their positions; none is ever
//! removed.

use petgraph::stable_graph::NodeIndex;
use petgraph::stable_graph::StableGraph;
use petgraph::visit::Dfs;
use petgraph::visit::EdgeRef;
use petgraph::visit::Walker;
use petgraph::Directed;
use petgraph::Direction;
use vstd::prelude::*;

use crate::walks::ends_at;
use crate::walks::reachable;

verus! {

/// `petgraph::stable_graph::StableGraph`; what it holds is told by
/// `stable_nodes` and `stable_arcs`.
#[verifier::external_type_specification]
#[verifier::external_body]
#[verifier::reject_recursive_types(N)]
#[verifier::reject_recursive_types(E)]
#[verifier::reject_recursive_types(Ty)]
#[verifier::reject_recursive_types(Ix)]
pub struct ExStableGraph<N, E, Ty, Ix>(StableGraph<N, E, Ty, Ix>);

/// The number of nodes of the graph.
pub uninterp spec fn stable_nodes(g: StableGraph<(), (), Directed, usize>) -> nat;

/// The arcs of the graph by position, each the positions of its source and
/// of its target.
pub uninterp spec fn stable_arcs(g: StableGraph<(), (), Directed, usize>) -> Seq<(int, int)>;

/// `StableGraph::with_capacity(0, 0)`: a graph without nodes and arcs.
#[verifier::external_body]
pub(crate) fn stable_new() -> (g: StableGraph<(), (), Directed, usize>)
    ensures
        stable_nodes(g) == 0,
        stable_arcs(g) == Seq::<(int, int)>::empty(),
{
    StableGraph::with_capacity(0, 0)
}

/// `StableGraph::add_node` on a graph that lost no node: the new node takes
/// the next position; the arcs stay.
#[verifier::external_body]
pub(crate) fn stable_add_node(g: &mut StableGraph<(), (), Directed, usize>) -> (i: usize)
    ensures
        i == stable_nodes(*old(g)),
        stable_nodes(*final(g)) == stable_nodes(*old(g)) + 1,
        stable_arcs(*final(g)) == stable_arcs(*old(g)),
{
    g.add_node(()).index()
}

/// `StableGraph::add_edge` between two nodes of a graph that lost no arc:
/// the new arc takes the next position.
#[verifier::external_body]
pub(crate) fn stable_add_arc(g: &mut StableGraph<(), (), Directed, usize>, a: usize, b: usize) -> (e:
    usize)
    requires
        a < stable_nodes(*old(g)),
        b < stable_nodes(*old(g)),
    ensures
        e == stable_arcs(*old(g)).len(),
        stable_nodes(*final(g)) == stable_nodes(*old(g)),
        stable_arcs(*final(g)) == stable_arcs(*old(g)).push((a as int, b as int)),
{
    g.add_edge(NodeIndex::new(a), NodeIndex::new(b), ()).index()
}

/// `StableGraph::edges` walked to its end: the position of each arc that
/// leaves the node, once.
#[verifier::external_body]
pub(crate) fn stable_out_arcs(g: &StableGraph<(), (), Directed, usize>, a: usize) -> (r: Vec<usize>)
    requires
        a < stable_nodes(*g),
    ensures
        r@.no_duplicates(),
        forall|e: usize|
            #[trigger] r@.contains(e) == (stable_arcs(*g).len() > e && stable_arcs(*g)[e as int].0 == a),
{
    g.edges(NodeIndex::new(a)).map(|edge| edge.id().index()).collect()
}

/// `StableGraph::edges_directed(a, Incoming).count()`: the number of arcs
/// that enter the node.
#[verifier::external_body]
pub(crate) fn stable_in_degree(g: &StableGraph<(), (), Directed, usize>, a: usize) -> (r: usize)
    requires
        a < stable_nodes(*g),
    ensures
        r == stable_arcs(*g).filter(ends_at(a as int)).len(),
{
    g.edges_directed(NodeIndex::new(a), Direction::Incoming).count()
}

/// `Dfs::new(g, start)` walked to its end: each node that `start` reaches,
/// once; `start` is among them.
#[verifier::external_body]
pub(crate) fn stable_reach(g: &StableGraph<(), (), Directed, usize>, start: usize) -> (r: Vec<
    usize,
>)
    requires
        start < stable_nodes(*g),
    ensures
        r@.no_duplicates(),
        forall|v: usize|
            #[trigger] r@.contains(v) == (stable_nodes(*g) > v && reachable(
                stable_arcs(*g),
                start as int,
                v as int,
            )),
{
    Dfs::new(g, NodeIndex::new(start)).iter(g).map(|n| n.index()).collect()
}

} // verus!
