//! Graphs in graphs: a node may own a whole graph as one of its components.

use vstd::prelude::*;

use crate::component::boxed;
use crate::component::type_key;
use crate::component::Component;
use crate::context_graph::ContextGraph;
use crate::types::NodeEntry;
use crate::types::NodeId;

verus! {

/// A graph owned by a node, as a component.
#[verifier::reject_recursive_types(N)]
#[verifier::reject_recursive_types(E)]
pub struct Subgraph<N, E> {
    pub graph: Box<ContextGraph<N, E>>,
}

impl<N: Clone, E: Clone> Clone for Subgraph<N, E> {
    fn clone(&self) -> (r: Self)
        ensures
            r.graph.copy_of(&*self.graph),
    {
        Subgraph { graph: Box::new((*self.graph).clone()) }
    }
}

impl<N: 'static + Send + Sync, E: 'static + Send + Sync> Component for Subgraph<N, E> {
    open spec fn spec_name(&self) -> Seq<char> {
        "Subgraph"@
    }

    fn component_name(&self) -> (r: &'static str) {
        "Subgraph"
    }
}

/// The least of `x` and the greatest number there is.
pub open spec fn capped(x: nat) -> nat {
    if x > usize::MAX {
        usize::MAX as nat
    } else {
        x
    }
}

/// The graph that the node owns, if it owns one.
pub open spec fn nested<N: 'static + Send + Sync, E: 'static + Send + Sync>(
    e: NodeEntry<N>,
) -> Option<ContextGraph<N, E>> {
    let k = type_key::<Subgraph<N, E>>();
    if e.components@.contains_key(k) && exists|s: Subgraph<N, E>| e.components@[k] == boxed(s) {
        Some(*(choose|s: Subgraph<N, E>| e.components@[k] == boxed(s)).graph)
    } else {
        None
    }
}

/// The number of nodes of the graph and of the graphs that its nodes own,
/// down to `depth` levels below it.
pub open spec fn count_within<N: 'static + Send + Sync, E: 'static + Send + Sync>(
    g: ContextGraph<N, E>,
    depth: nat,
) -> nat
    decreases depth, 1nat, 0nat,
{
    g.node_seq().len() + nested_count::<N, E>(g.node_seq(), depth)
}

/// The number of nodes of the graphs that the given nodes own, down to
/// `depth` levels.
pub open spec fn nested_count<N: 'static + Send + Sync, E: 'static + Send + Sync>(
    nodes: Seq<NodeEntry<N>>,
    depth: nat,
) -> nat
    decreases depth, 0nat, nodes.len(),
{
    if nodes.len() == 0 || depth == 0 {
        0
    } else {
        nested_count::<N, E>(nodes.drop_last(), depth) + match nested::<N, E>(nodes.last()) {
            Some(g) => count_within(g, (depth - 1) as nat),
            None => 0,
        }
    }
}

/// The graph at `depth` and the graphs down to `levels` levels below it,
/// each with its depth: a graph stands before the graphs that its nodes
/// own, and these in the order of the nodes.
pub open spec fn preorder<N: 'static + Send + Sync, E: 'static + Send + Sync>(
    g: ContextGraph<N, E>,
    depth: int,
    levels: nat,
) -> Seq<(ContextGraph<N, E>, int)>
    decreases levels, 1nat, 0nat,
{
    seq![(g, depth)] + preorder_below::<N, E>(g.node_seq(), depth, levels)
}

/// The graphs that the given nodes own and the graphs below these, down to
/// `levels` levels below the owner at `depth`.
pub open spec fn preorder_below<N: 'static + Send + Sync, E: 'static + Send + Sync>(
    nodes: Seq<NodeEntry<N>>,
    depth: int,
    levels: nat,
) -> Seq<(ContextGraph<N, E>, int)>
    decreases levels, 0nat, nodes.len(),
{
    if nodes.len() == 0 || levels == 0 {
        Seq::empty()
    } else {
        preorder_below::<N, E>(nodes.drop_last(), depth, levels) + match nested::<N, E>(
            nodes.last(),
        ) {
            Some(g) => preorder(g, depth + 1, (levels - 1) as nat),
            None => Seq::empty(),
        }
    }
}

/// The visitor `v` was called with the graph and the depth of `at`.
pub open spec fn was_called<N, E, F: FnMut(&ContextGraph<N, E>, usize)>(
    v: F,
    at: (ContextGraph<N, E>, int),
) -> bool {
    call_ensures(v, (&at.0, at.1 as usize), ())
}

/// Some visitor of the type `F` was called with the graph and the depth of
/// `at`.
pub open spec fn visited<N, E, F: FnMut(&ContextGraph<N, E>, usize)>(
    at: (ContextGraph<N, E>, int),
) -> bool {
    exists|v: F| was_called(v, at)
}

/// The listed graphs themselves, with their depths.
pub open spec fn shown<N, E>(s: Seq<(&ContextGraph<N, E>, usize)>) -> Seq<(ContextGraph<N, E>, int)> {
    Seq::new(s.len(), |i: int| (*s[i].0, s[i].1 as int))
}

impl<N: 'static + Send + Sync, E: 'static + Send + Sync> ContextGraph<N, E> {
    /// The identifiers of the nodes that own a graph.
    pub fn get_subgraph_nodes(&self) -> (r: Vec<NodeId>)
        ensures
            r@ == self.nodes_with::<Subgraph<N, E>>(),
    {
        self.query_nodes_with_component::<Subgraph<N, E>>()
    }

    /// The graph that the node owns, if it owns one.
    pub fn subgraph_of(entry: &NodeEntry<N>) -> (r: Option<&ContextGraph<N, E>>)
        ensures
            r == match nested::<N, E>(*entry) {
                Some(g) => Some(&g),
                None => None,
            },
    {
        match entry.get_component::<Subgraph<N, E>>() {
            Some(sub) => {
                proof {
                    let k = type_key::<Subgraph<N, E>>();
                    let s = choose|s: Subgraph<N, E>| entry.components@[k] == boxed(s);
                    assert(entry.components@[k] == boxed(*sub));
                    assert(Some(sub) == Some(&s));
                }
                Some(&*sub.graph)
            },
            None => None,
        }
    }

    /// The number of nodes of the graph and of all graphs below it; the
    /// greatest number there is where the count is beyond it.
    pub fn total_node_count(&self) -> (r: usize)
        ensures
            r == capped(count_within(*self, usize::MAX as nat)),
    {
        self.count_nodes_within(usize::MAX)
    }

    /// The number of nodes of the graph and of the graphs down to `depth`
    /// levels below it; the greatest number there is where the count is
    /// beyond it.
    pub fn count_nodes_within(&self, depth: usize) -> (r: usize)
        ensures
            r == capped(count_within(*self, depth as nat)),
        decreases depth,
    {
        let nodes = self.node_entries();
        let own = nodes.len();
        if depth == 0 {
            return own;
        }
        let mut below: usize = 0;
        let mut i: usize = 0;
        while i < nodes.len()
            invariant
                depth > 0,
                i <= nodes@.len(),
                below == capped(nested_count::<N, E>(nodes@.take(i as int), depth as nat)),
            decreases nodes@.len() - i,
        {
            proof {
                assert(nodes@.take(i as int + 1).drop_last() =~= nodes@.take(i as int));
                assert(nodes@.take(i as int + 1).last() == nodes@[i as int]);
            }
            match Self::subgraph_of(&nodes[i]) {
                Some(sub) => {
                    let inner = sub.count_nodes_within(depth - 1);
                    below = below.saturating_add(inner);
                },
                None => {},
            }
            i += 1;
        }
        assert(nodes@.take(i as int) =~= nodes@);
        own.saturating_add(below)
    }

    /// The graph and all graphs below it, each with its depth: a graph
    /// stands before the graphs that its nodes own, and these in the order of
    /// the nodes.
    pub fn nested_graphs(&self) -> (r: Vec<(&ContextGraph<N, E>, usize)>)
        ensures
            shown(r@) == preorder(*self, 0, usize::MAX as nat),
    {
        let mut r: Vec<(&ContextGraph<N, E>, usize)> = Vec::new();
        self.gather(&mut r, 0, usize::MAX);
        assert(shown(r@) =~= Seq::<(ContextGraph<N, E>, int)>::empty() + preorder(
            *self,
            0,
            usize::MAX as nat,
        ));
        r
    }

    /// Adds to `out` the graph and the graphs down to `levels` levels below
    /// it, the graph at `depth`.
    fn gather<'a>(&'a self, out: &mut Vec<(&'a ContextGraph<N, E>, usize)>, depth: usize, levels: usize)
        requires
            depth + levels <= usize::MAX,
        ensures
            shown(final(out)@) == shown(old(out)@) + preorder(*self, depth as int, levels as nat),
        decreases levels,
    {
        let ghost before = shown(out@);
        out.push((self, depth));
        proof {
            assert(shown(out@) =~= before + seq![(*self, depth as int)]);
        }
        if levels == 0 {
            proof {
                assert(preorder(*self, depth as int, 0) =~= seq![(*self, depth as int)]);
            }
            return;
        }
        let nodes = self.node_entries();
        let mut i: usize = 0;
        while i < nodes.len()
            invariant
                depth + levels <= usize::MAX,
                levels > 0,
                nodes@ == self.node_seq(),
                i <= nodes@.len(),
                shown(out@) == before + seq![(*self, depth as int)] + preorder_below::<N, E>(
                    nodes@.take(i as int),
                    depth as int,
                    levels as nat,
                ),
            decreases nodes@.len() - i,
        {
            let ghost so_far = shown(out@);
            proof {
                assert(nodes@.take(i as int + 1).drop_last() =~= nodes@.take(i as int));
                assert(nodes@.take(i as int + 1).last() == nodes@[i as int]);
            }
            match Self::subgraph_of(&nodes[i]) {
                Some(sub) => {
                    sub.gather(out, depth + 1, levels - 1);
                    proof {
                        assert(shown(out@) =~= before + seq![(*self, depth as int)]
                            + preorder_below::<N, E>(
                            nodes@.take(i as int + 1),
                            depth as int,
                            levels as nat,
                        ));
                    }
                },
                None => {
                    proof {
                        assert(shown(out@) =~= before + seq![(*self, depth as int)]
                            + preorder_below::<N, E>(
                            nodes@.take(i as int + 1),
                            depth as int,
                            levels as nat,
                        ));
                    }
                },
            }
            i += 1;
        }
        proof {
            assert(nodes@.take(i as int) =~= nodes@);
            assert(shown(out@) =~= before + preorder(*self, depth as int, levels as nat));
        }
    }

    /// Calls `visitor` with the graph and depth 0, then, for every node that
    /// owns a graph, in the order of the nodes, with that graph and all below
    /// it, each one level deeper than its owner: with each of
    /// `nested_graphs`, in their order.
    pub fn visit_recursive<F: FnMut(&ContextGraph<N, E>, usize)>(&self, visitor: F)
        requires
            forall|v: F, g: &ContextGraph<N, E>, d: usize| call_requires(v, (g, d)),
        ensures
            forall|i: int|
                0 <= i < preorder(*self, 0, usize::MAX as nat).len() ==> #[trigger] visited::<N, E, F>(
                    preorder(*self, 0, usize::MAX as nat)[i],
                ),
    {
        let mut visitor = visitor;
        let graphs = self.nested_graphs();
        let ghost all = preorder(*self, 0, usize::MAX as nat);
        assert(shown(graphs@).len() == graphs@.len());
        let mut i: usize = 0;
        while i < graphs.len()
            invariant
                forall|v: F, g: &ContextGraph<N, E>, d: usize| call_requires(v, (g, d)),
                i <= graphs@.len(),
                shown(graphs@) == all,
                all.len() == graphs@.len(),
                forall|k: int| 0 <= k < i ==> #[trigger] visited::<N, E, F>(all[k]),
            decreases graphs@.len() - i,
        {
            let ghost before = visitor;
            visitor(graphs[i].0, graphs[i].1);
            proof {
                assert(all[i as int] == (*graphs@[i as int].0, graphs@[i as int].1 as int));
                assert(was_called(before, all[i as int]));
            }
            i += 1;
        }
    }
}

} // verus!
