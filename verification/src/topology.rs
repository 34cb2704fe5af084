//! The shape of a graph, kept in a `petgraph` graph without weights.
//!
//! Nodes and arcs are known by their positions. The graph is told of every
//! node and arc that is added or removed, and answers the questions on
//! degrees, cycles, orders and paths.

use petgraph::graph::EdgeIndex;
use petgraph::graph::Graph;
use petgraph::graph::NodeIndex;
use petgraph::Directed;
use petgraph::Direction;
use vstd::prelude::*;

use crate::walks::all_positions;
use crate::walks::begins_at;
use crate::walks::both_ways;
use crate::walks::class_count;
use crate::walks::ends_at;
use crate::walks::has_cycle;
use crate::walks::is_partition_by_reach;
use crate::walks::is_shortest_walk;
use crate::walks::is_simple_path;
use crate::walks::lists_each_once;
use crate::walks::reachable;
use crate::walks::respects_links;

verus! {

/// `petgraph::graph::Graph`; what it holds is told by `topology_nodes` and
/// `topology_arcs`.
#[verifier::external_type_specification]
#[verifier::external_body]
#[verifier::reject_recursive_types(N)]
#[verifier::reject_recursive_types(E)]
#[verifier::reject_recursive_types(Ty)]
#[verifier::reject_recursive_types(Ix)]
pub struct ExGraph<N, E, Ty, Ix>(Graph<N, E, Ty, Ix>);

/// `petgraph::Directed`, the marker of a graph whose arcs have a direction.
#[verifier::external_type_specification]
#[verifier::external_body]
pub struct ExDirected(Directed);

/// The number of nodes of the graph.
pub uninterp spec fn topology_nodes(g: Graph<(), (), Directed, usize>) -> nat;

/// The arcs of the graph by position, each the positions of its source and
/// of its target.
pub uninterp spec fn topology_arcs(g: Graph<(), (), Directed, usize>) -> Seq<(int, int)>;

/// The sequence with each position as an integer.
pub open spec fn as_ints(s: Seq<usize>) -> Seq<int> {
    Seq::new(s.len(), |i: int| s[i] as int)
}

/// The sequences with each position as an integer.
pub open spec fn as_int_seqs(s: Seq<Vec<usize>>) -> Seq<Seq<int>> {
    Seq::new(s.len(), |i: int| as_ints(s[i]@))
}

/// The sequence after the element at `i` was replaced by the last and the
/// last dropped.
pub open spec fn swap_removed<T>(s: Seq<T>, i: int) -> Seq<T> {
    s.update(i, s.last()).drop_last()
}

/// Whatever is in the sequence after an element was removed was in it
/// before, and all but the removed element still are.
pub proof fn lemma_swap_removed_contains<T>(s: Seq<T>, i: int)
    requires
        0 <= i < s.len(),
    ensures
        swap_removed(s, i).len() == s.len() - 1,
        forall|x: T| swap_removed(s, i).contains(x) ==> s.contains(x),
        forall|j: int| 0 <= j < s.len() && j != i ==> swap_removed(s, i).contains(#[trigger] s[j]),
{
    let t = swap_removed(s, i);
    assert forall|x: T| t.contains(x) implies s.contains(x) by {
        let j = choose|j: int| 0 <= j < t.len() && t[j] == x;
        if j == i {
            assert(s[s.len() - 1] == x);
        } else {
            assert(s[j] == x);
        }
    }
    assert forall|j: int| 0 <= j < s.len() && j != i implies t.contains(#[trigger] s[j]) by {
        if j == s.len() - 1 {
            assert(t[i] == s[j]);
        } else {
            assert(t[j] == s[j]);
        }
    }
}

/// Removing an element from a sequence without duplicates leaves none, and
/// the removed element is gone.
pub proof fn lemma_swap_removed_no_duplicates<T>(s: Seq<T>, i: int)
    requires
        0 <= i < s.len(),
        s.no_duplicates(),
    ensures
        swap_removed(s, i).no_duplicates(),
        !swap_removed(s, i).contains(s[i]),
{
    let t = swap_removed(s, i);
    assert forall|a: int, b: int| 0 <= a < t.len() && 0 <= b < t.len() && a != b implies t[a]
        != t[b] by {
        let a0 = if a == i { s.len() - 1 } else { a };
        let b0 = if b == i { s.len() - 1 } else { b };
        assert(t[a] == s[a0]);
        assert(t[b] == s[b0]);
    }
    if t.contains(s[i]) {
        let j = choose|j: int| 0 <= j < t.len() && t[j] == s[i];
        let j0 = if j == i { s.len() - 1 } else { j };
        assert(t[j] == s[j0]);
    }
}

/// The arc with each end at position `from` moved to position `to`.
pub open spec fn moved_arc(arc: (int, int), from: int, to: int) -> (int, int) {
    (
        if arc.0 == from {
            to
        } else {
            arc.0
        },
        if arc.1 == from {
            to
        } else {
            arc.1
        },
    )
}

/// The arcs with each end at position `from` moved to position `to`.
pub open spec fn moved_arcs(arcs: Seq<(int, int)>, from: int, to: int) -> Seq<(int, int)> {
    Seq::new(arcs.len(), |k: int| moved_arc(arcs[k], from, to))
}

/// The cost of every arc.
pub fn unit_cost() -> (c: usize)
    ensures
        c == 1,
{
    1
}

/// The estimate of the cost that is left, which claims nothing.
pub fn no_estimate() -> (c: usize)
    ensures
        c == 0,
{
    0
}

/// Whether a position is the one looked for.
pub fn is_position(at: usize, goal: usize) -> (r: bool)
    ensures
        r == (at == goal),
{
    at == goal
}

/// `Graph::with_capacity(0, 0)`: a graph without nodes and arcs.
#[verifier::external_body]
pub(crate) fn topology_new() -> (g: Graph<(), (), Directed, usize>)
    ensures
        topology_nodes(g) == 0,
        topology_arcs(g) == Seq::<(int, int)>::empty(),
{
    Graph::with_capacity(0, 0)
}

/// `Graph::add_node`: the new node takes the next position; the arcs stay.
#[verifier::external_body]
pub(crate) fn topology_add_node(g: &mut Graph<(), (), Directed, usize>) -> (i: usize)
    ensures
        i == topology_nodes(*old(g)),
        topology_nodes(*final(g)) == topology_nodes(*old(g)) + 1,
        topology_arcs(*final(g)) == topology_arcs(*old(g)),
{
    g.add_node(()).index()
}

/// `Graph::add_edge` between two nodes of the graph: the new arc takes the
/// next position; parallel arcs and arcs from a node to itself are taken.
#[verifier::external_body]
pub(crate) fn topology_add_arc(g: &mut Graph<(), (), Directed, usize>, a: usize, b: usize) -> (e:
    usize)
    requires
        a < topology_nodes(*old(g)),
        b < topology_nodes(*old(g)),
    ensures
        e == topology_arcs(*old(g)).len(),
        topology_nodes(*final(g)) == topology_nodes(*old(g)),
        topology_arcs(*final(g)) == topology_arcs(*old(g)).push((a as int, b as int)),
{
    g.add_edge(NodeIndex::new(a), NodeIndex::new(b), ()).index()
}

/// `Graph::remove_edge` of an arc of the graph: the last arc takes the
/// position of the removed one; the nodes stay.
#[verifier::external_body]
pub(crate) fn topology_remove_arc(g: &mut Graph<(), (), Directed, usize>, e: usize)
    requires
        e < topology_arcs(*old(g)).len(),
    ensures
        topology_nodes(*final(g)) == topology_nodes(*old(g)),
        topology_arcs(*final(g)) == swap_removed(topology_arcs(*old(g)), e as int),
{
    g.remove_edge(EdgeIndex::new(e));
}

/// `Graph::remove_node` of a node that no arc touches: the last node takes
/// the position of the removed one, and so do the ends of its arcs; the
/// arcs keep their positions.
#[verifier::external_body]
pub(crate) fn topology_remove_node(g: &mut Graph<(), (), Directed, usize>, a: usize)
    requires
        a < topology_nodes(*old(g)),
        forall|k: int|
            0 <= k < topology_arcs(*old(g)).len() ==> (#[trigger] topology_arcs(*old(g))[k]).0 != a
                && topology_arcs(*old(g))[k].1 != a,
    ensures
        topology_nodes(*final(g)) == topology_nodes(*old(g)) - 1,
        topology_arcs(*final(g)) == moved_arcs(
            topology_arcs(*old(g)),
            topology_nodes(*old(g)) - 1,
            a as int,
        ),
{
    g.remove_node(NodeIndex::new(a));
}

/// `Graph::edges_directed(a, Outgoing).count()`: the number of arcs that
/// leave the node.
#[verifier::external_body]
pub(crate) fn topology_out_degree(g: &Graph<(), (), Directed, usize>, a: usize) -> (r: usize)
    requires
        a < topology_nodes(*g),
    ensures
        r == topology_arcs(*g).filter(begins_at(a as int)).len(),
{
    g.edges_directed(NodeIndex::new(a), Direction::Outgoing).count()
}

/// `Graph::edges_directed(a, Incoming).count()`: the number of arcs that
/// enter the node.
#[verifier::external_body]
pub(crate) fn topology_in_degree(g: &Graph<(), (), Directed, usize>, a: usize) -> (r: usize)
    requires
        a < topology_nodes(*g),
    ensures
        r == topology_arcs(*g).filter(ends_at(a as int)).len(),
{
    g.edges_directed(NodeIndex::new(a), Direction::Incoming).count()
}

/// `petgraph::algo::is_cyclic_directed`: whether the graph has a cycle; an
/// arc from a node to itself is one.
#[verifier::external_body]
pub(crate) fn topology_is_cyclic(g: &Graph<(), (), Directed, usize>) -> (r: bool)
    ensures
        r == has_cycle(topology_arcs(*g)),
{
    petgraph::algo::is_cyclic_directed(g)
}

/// `petgraph::algo::toposort`: for a graph without cycle all its nodes, each
/// before its successors; `None` for a graph with a cycle.
#[verifier::external_body]
pub(crate) fn topology_sort(g: &Graph<(), (), Directed, usize>) -> (r: Option<Vec<usize>>)
    ensures
        r is None <==> has_cycle(topology_arcs(*g)),
        r matches Some(order) ==> lists_each_once(all_positions(topology_nodes(*g)), as_ints(order@))
            && respects_links(topology_arcs(*g), as_ints(order@)),
{
    match petgraph::algo::toposort(g, None) {
        Ok(order) => Some(order.into_iter().map(|n| n.index()).collect()),
        Err(_) => None,
    }
}

/// `petgraph::algo::kosaraju_scc`: the strongly connected components, each
/// node in one of them.
#[verifier::external_body]
pub(crate) fn topology_components(g: &Graph<(), (), Directed, usize>) -> (r: Vec<Vec<usize>>)
    ensures
        is_partition_by_reach(
            topology_arcs(*g),
            all_positions(topology_nodes(*g)),
            as_int_seqs(r@),
        ),
{
    petgraph::algo::kosaraju_scc(g).into_iter().map(
        |part| part.into_iter().map(|n| n.index()).collect(),
    ).collect()
}

/// `petgraph::algo::astar` with every arc at the same cost and no estimate:
/// a walk of the fewest arcs from `a` to `b`, or `None` where `b` cannot be
/// reached.
#[verifier::external_body]
pub(crate) fn topology_shortest(g: &Graph<(), (), Directed, usize>, a: usize, b: usize) -> (r:
    Option<Vec<usize>>)
    requires
        a < topology_nodes(*g),
        b < topology_nodes(*g),
    ensures
        r is None <==> !reachable(topology_arcs(*g), a as int, b as int),
        r matches Some(p) ==> is_shortest_walk(topology_arcs(*g), as_ints(p@)) && p@[0] == a
            && p@.last() == b,
{
    petgraph::algo::astar(
        g,
        NodeIndex::new(a),
        |n| is_position(n.index(), b),
        |_| unit_cost(),
        |_| no_estimate(),
    ).map(|found| found.1.into_iter().map(|n| n.index()).collect())
}

/// `petgraph::algo::all_simple_paths` with at most `inner` nodes between the
/// ends: every simple path from `a` to `b` within that bound is listed, and
/// nothing else. A path is listed once for each way of taking it along the
/// arcs, so in a graph without parallel arcs each path is listed once.
#[verifier::external_body]
pub(crate) fn topology_simple_paths(
    g: &Graph<(), (), Directed, usize>,
    a: usize,
    b: usize,
    inner: usize,
) -> (r: Vec<Vec<usize>>)
    requires
        a < topology_nodes(*g),
        b < topology_nodes(*g),
        inner < usize::MAX,
    ensures
        forall|k: int|
            0 <= k < r@.len() ==> is_simple_path(
                topology_arcs(*g),
                a as int,
                b as int,
                #[trigger] as_int_seqs(r@)[k],
            ) && as_int_seqs(r@)[k].len() <= inner + 2,
        forall|p: Seq<int>|
            #![trigger is_simple_path(topology_arcs(*g), a as int, b as int, p)]
            is_simple_path(topology_arcs(*g), a as int, b as int, p) && p.len() <= inner + 2
                ==> as_int_seqs(r@).contains(p),
        topology_arcs(*g).no_duplicates() ==> as_int_seqs(r@).no_duplicates(),
{
    petgraph::algo::all_simple_paths::<Vec<NodeIndex<usize>>, _>(
        g,
        NodeIndex::new(a),
        NodeIndex::new(b),
        0,
        Some(inner),
    ).map(|path| path.into_iter().map(|n| n.index()).collect()).collect()
}

/// `petgraph::algo::connected_components`: the number of the classes into
/// which the nodes fall when each is put with those that it reaches, the
/// direction of the arcs left aside.
#[verifier::external_body]
pub(crate) fn topology_component_count(g: &Graph<(), (), Directed, usize>) -> (r: usize)
    ensures
        class_count(
            both_ways(topology_arcs(*g)),
            all_positions(topology_nodes(*g)),
            r as nat,
        ),
{
    petgraph::algo::connected_components(g)
}

/// `Clone` of `Graph`: a graph with the same nodes and arcs at the same
/// positions.
#[verifier::external_body]
pub(crate) fn topology_clone(g: &Graph<(), (), Directed, usize>) -> (r: Graph<
    (),
    (),
    Directed,
    usize,
>)
    ensures
        topology_nodes(r) == topology_nodes(*g),
        topology_arcs(r) == topology_arcs(*g),
{
    g.clone()
}

} // verus!
