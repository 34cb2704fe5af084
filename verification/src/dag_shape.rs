//! The shape of an acyclic graph, kept in a `daggy` graph without weights.
//!
//! Nodes and arcs are known by their positions. The graph only grows, and
//! refuses every arc that would close a cycle.

use daggy::Dag;
use daggy::NodeIndex;
use daggy::Walker;
use vstd::prelude::*;

use crate::walks::has_cycle;
use crate::walks::reachable;

verus! {

/// A `daggy::Dag<(), (), usize>`. The verifier does not take the type itself,
/// whose index parameter is bound by a trait of `petgraph`, so it is held
/// here, out of its sight.
#[verifier::external_body]
pub struct DagShape {
    inner: Dag<(), (), usize>,
}

/// The number of nodes of the graph.
pub uninterp spec fn dag_nodes(g: DagShape) -> nat;

/// The arcs of the graph by position, each the positions of its source and
/// of its target.
pub uninterp spec fn dag_arcs(g: DagShape) -> Seq<(int, int)>;

/// `Dag::new`: a graph without nodes and arcs.
#[verifier::external_body]
pub(crate) fn dag_new() -> (g: DagShape)
    ensures
        dag_nodes(g) == 0,
        dag_arcs(g) == Seq::<(int, int)>::empty(),
{
    DagShape { inner: Dag::new() }
}

/// `Dag::add_node`: the new node takes the next position; the arcs stay.
#[verifier::external_body]
pub(crate) fn dag_add_node(g: &mut DagShape) -> (i: usize)
    ensures
        i == dag_nodes(*old(g)),
        dag_nodes(*final(g)) == dag_nodes(*old(g)) + 1,
        dag_arcs(*final(g)) == dag_arcs(*old(g)),
{
    g.inner.add_node(()).index()
}

/// `Dag::add_edge` between two nodes of a graph without cycle: the arc is
/// refused, and nothing changes, exactly where its target reaches its source
/// already, so that it would close a cycle; else it takes the next position.
#[verifier::external_body]
pub(crate) fn dag_add_arc(g: &mut DagShape, a: usize, b: usize) -> (r: Option<usize>)
    requires
        a < dag_nodes(*old(g)),
        b < dag_nodes(*old(g)),
        !has_cycle(dag_arcs(*old(g))),
    ensures
        dag_nodes(*final(g)) == dag_nodes(*old(g)),
        r is None <==> reachable(dag_arcs(*old(g)), b as int, a as int),
        r is None ==> dag_arcs(*final(g)) == dag_arcs(*old(g)),
        r matches Some(e) ==> e == dag_arcs(*old(g)).len() && dag_arcs(*final(g)) == dag_arcs(
            *old(g),
        ).push((a as int, b as int)),
{
    match g.inner.add_edge(NodeIndex::new(a), NodeIndex::new(b), ()) {
        Ok(e) => Some(e.index()),
        Err(_) => None,
    }
}

/// `Dag::parents` walked to its end: each arc that enters the node, once,
/// with the position of its source.
#[verifier::external_body]
pub(crate) fn dag_parents(g: &DagShape, v: usize) -> (r: Vec<(usize, usize)>)
    requires
        v < dag_nodes(*g),
    ensures
        forall|i: int, j: int| 0 <= i < j < r@.len() ==> r@[i].0 != r@[j].0,
        forall|i: int|
            0 <= i < r@.len() ==> (#[trigger] r@[i]).0 < dag_arcs(*g).len() && dag_arcs(
                *g,
            )[r@[i].0 as int] == (r@[i].1 as int, v as int),
        forall|e: int|
            0 <= e < dag_arcs(*g).len() && (#[trigger] dag_arcs(*g)[e]).1 == v ==> exists|i: int|
                0 <= i < r@.len() && r@[i].0 == e,
{
    g.inner.parents(NodeIndex::new(v)).iter(&g.inner).map(|found| (found.0.index(), found.1.index())).collect()
}

/// `Dag::children` walked to its end: each arc that leaves the node, once,
/// with the position of its target.
#[verifier::external_body]
pub(crate) fn dag_children(g: &DagShape, v: usize) -> (r: Vec<(usize, usize)>)
    requires
        v < dag_nodes(*g),
    ensures
        forall|i: int, j: int| 0 <= i < j < r@.len() ==> r@[i].0 != r@[j].0,
        forall|i: int|
            0 <= i < r@.len() ==> (#[trigger] r@[i]).0 < dag_arcs(*g).len() && dag_arcs(
                *g,
            )[r@[i].0 as int] == (v as int, r@[i].1 as int),
        forall|e: int|
            0 <= e < dag_arcs(*g).len() && (#[trigger] dag_arcs(*g)[e]).0 == v ==> exists|i: int|
                0 <= i < r@.len() && r@[i].0 == e,
{
    g.inner.children(NodeIndex::new(v)).iter(&g.inner).map(|found| (found.0.index(), found.1.index())).collect()
}

/// `Dag::edge_endpoints`: the positions of the source and of the target of
/// the arc at the position, or `None` where the graph has no such arc.
#[verifier::external_body]
pub(crate) fn dag_arc_ends(g: &DagShape, e: usize) -> (r: Option<(usize, usize)>)
    ensures
        r is Some <==> e < dag_arcs(*g).len(),
        r matches Some(ends) ==> dag_arcs(*g)[e as int] == (ends.0 as int, ends.1 as int),
{
    g.inner.edge_endpoints(daggy::EdgeIndex::new(e)).map(|ends| (ends.0.index(), ends.1.index()))
}

/// `Clone` of `Dag`: a graph with the same nodes and arcs at the same
/// positions.
#[verifier::external_body]
pub(crate) fn dag_clone(g: &DagShape) -> (r: DagShape)
    ensures
        dag_nodes(r) == dag_nodes(*g),
        dag_arcs(r) == dag_arcs(*g),
{
    DagShape { inner: g.inner.clone() }
}

} // verus!
