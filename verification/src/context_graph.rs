//! The context graph: a directed multigraph of typed nodes and edges, each
//! with components, behind stable identifiers.

use petgraph::graph::Graph;
use petgraph::Directed;
use std::any::TypeId;
use std::collections::HashMap;
use std::sync::Arc;
use vstd::prelude::*;

use crate::component::type_key;
use crate::component::Component;
use crate::component::ComponentBox;
use crate::fresh::unused_id;
use crate::index::indexes;
use crate::index::lemma_indexes_lookup;
use crate::index::lemma_indexes_push;
use crate::index::lemma_indexes_swap_remove;
use crate::index::lookup;
use crate::index::moved;
use crate::topology::as_int_seqs;
use crate::topology::as_ints;
use crate::topology::topology_add_arc;
use crate::topology::topology_add_node;
use crate::topology::topology_arcs;
use crate::topology::topology_clone;
use crate::topology::topology_component_count;
use crate::topology::topology_components;
use crate::topology::topology_in_degree;
use crate::topology::topology_is_cyclic;
use crate::topology::topology_new;
use crate::topology::topology_nodes;
use crate::topology::topology_out_degree;
use crate::topology::topology_remove_arc;
use crate::topology::topology_remove_node;
use crate::topology::topology_shortest;
use crate::topology::topology_simple_paths;
use crate::topology::topology_sort;
use crate::topology::lemma_swap_removed_contains;
use crate::topology::lemma_swap_removed_no_duplicates;
use crate::topology::swap_removed;
use crate::types::ContextGraphId;
use crate::types::EdgeEntry;
use crate::types::EdgeId;
use crate::types::outcome;
use crate::types::GraphError;
use crate::types::GraphErrorView;
use crate::types::GraphResult;
use crate::types::Metadata;
use crate::types::NodeEntry;
use crate::types::NodeId;
use crate::walks::arcs_in_range;
use crate::walks::begins_at;
use crate::walks::ends_at;
use crate::walks::lemma_count_none;
use crate::walks::class_count;
use crate::walks::has_cycle;
use crate::walks::is_connected;
use crate::walks::lemma_connected_by_parts;
use crate::walks::in_range;
use crate::walks::is_partition_by_reach;
use crate::walks::is_shortest_walk;
use crate::walks::is_simple_path;
use crate::walks::lemma_count_aligned;
use crate::walks::lemma_cycle_relabel;
use crate::walks::lemma_order_rename;
use crate::walks::lemma_partition_rename;
use crate::walks::lemma_reach_relabel;
use crate::walks::lemma_shortest_rename;
use crate::walks::lemma_simple_path_positions;
use crate::walks::lemma_simple_path_rename;
use crate::walks::lemma_walk_in_range;
use crate::walks::lists_each_once;
use crate::walks::positions;
use crate::walks::reachable;
use crate::walks::rename;
use crate::walks::rename_all;
use crate::walks::respects_links;
use crate::walks::relabel;

verus! {

broadcast use vstd::std_specs::hash::group_hash_axioms;

/// A rule on the structure of a graph, checked after an edge is added.
///
/// What a rule answers depends on the rule and the graph alone, and its
/// name on the rule alone.
pub trait GraphInvariant<N, E>: Send + Sync {
    /// What the rule answers for the graph.
    closed spec fn spec_check(&self, graph: &ContextGraph<N, E>) -> Result<(), GraphErrorView> {
        (arbitrary::<spec_fn(&Self, &ContextGraph<N, E>) -> Result<(), GraphErrorView>>())(
            self,
            graph,
        )
    }

    /// The name of the rule.
    closed spec fn spec_name(&self) -> Seq<char> {
        (arbitrary::<spec_fn(&Self) -> Seq<char>>())(self)
    }

    /// `Ok` where the graph keeps the rule, else the reason why it does not.
    fn check(&self, graph: &ContextGraph<N, E>) -> (r: GraphResult<()>)
        requires
            graph.wf(),
        ensures
            outcome(r) == self.spec_check(graph),
    ;

    /// The name of the rule.
    fn name(&self) -> (r: &str)
        ensures
            r@ == self.spec_name(),
    ;
}

/// A rule whose type has been erased.
///
/// Holds an `Arc<dyn GraphInvariant<N, E>>`, which the verifier cannot see
/// into: a trait object of a trait that speaks of the graph cannot stand in
/// the graph itself. What the rule in it answers is told by `verdict`, its
/// name by `rule_name`.
#[verifier::external_body]
#[verifier::reject_recursive_types(N)]
#[verifier::reject_recursive_types(E)]
pub struct InvariantBox<N, E> {
    inner: Arc<dyn GraphInvariant<N, E>>,
}

/// What the rule in the box answers for the graph.
pub closed spec fn verdict<N, E>(b: InvariantBox<N, E>, graph: ContextGraph<N, E>) -> Result<
    (),
    GraphErrorView,
> {
    (arbitrary::<spec_fn(InvariantBox<N, E>, ContextGraph<N, E>) -> Result<(), GraphErrorView>>())(
        b,
        graph,
    )
}

/// The name of the rule in the box.
pub closed spec fn rule_name<N, E>(b: InvariantBox<N, E>) -> Seq<char> {
    (arbitrary::<spec_fn(InvariantBox<N, E>) -> Seq<char>>())(b)
}

/// `Arc::new` and the coercion to the trait object: the box answers as the
/// rule in it does.
#[verifier::external_body]
fn erase_invariant<N, E, I: GraphInvariant<N, E> + 'static>(rule: I) -> (b: InvariantBox<N, E>)
    ensures
        rule_name(b) == rule.spec_name(),
        forall|graph: ContextGraph<N, E>| #[trigger] verdict(b, graph) == rule.spec_check(&graph),
{
    InvariantBox { inner: Arc::new(rule) }
}

/// The call of `check` through the trait object: what the rule in the box
/// answers for the graph.
#[verifier::external_body]
fn run_check<N, E>(rule: &InvariantBox<N, E>, graph: &ContextGraph<N, E>) -> (r: GraphResult<()>)
    requires
        graph.wf(),
    ensures
        outcome(r) == verdict(*rule, *graph),
{
    rule.inner.check(graph)
}

/// The call of `name` through the trait object, and `to_owned` of what it
/// gives: the name of the rule in the box.
#[verifier::external_body]
fn run_name<N, E>(rule: &InvariantBox<N, E>) -> (r: String)
    ensures
        r@ == rule_name(*rule),
{
    rule.inner.name().to_owned()
}

/// `Arc::clone`: a second handle to the same rule.
#[verifier::external_body]
fn share_invariant<N, E>(rule: &InvariantBox<N, E>) -> (r: InvariantBox<N, E>)
    ensures
        r == *rule,
{
    InvariantBox { inner: Arc::clone(&rule.inner) }
}

impl<N, E> InvariantBox<N, E> {
    /// Erases the type of `rule`.
    pub fn new<I: GraphInvariant<N, E> + 'static>(rule: I) -> (b: Self)
        ensures
            rule_name(b) == rule.spec_name(),
            forall|graph: ContextGraph<N, E>| #[trigger] verdict(b, graph) == rule.spec_check(&graph),
    {
        erase_invariant(rule)
    }

    /// The name of the rule.
    pub fn name(&self) -> (r: String)
        ensures
            r@ == rule_name(*self),
    {
        run_name(self)
    }
}

impl<N, E> Clone for InvariantBox<N, E> {
    fn clone(&self) -> (r: Self)
        ensures
            r == *self,
    {
        share_invariant(self)
    }
}

/// The property at `i` is the first that is keyed `name`.
pub open spec fn keyed_name(props: Seq<(String, String)>, i: int) -> bool {
    &&& 0 <= i < props.len()
    &&& props[i].0@ == "name"@
    &&& forall|j: int| 0 <= j < i ==> props[j].0@ != "name"@
}

/// `text` is the value of the first property keyed `name`, or empty where no
/// property is keyed so.
pub open spec fn is_name_in(props: Seq<(String, String)>, text: Seq<char>) -> bool {
    ||| exists|i: int| #[trigger] keyed_name(props, i) && text == props[i].1@
    ||| text.len() == 0 && forall|j: int| 0 <= j < props.len() ==> props[j].0@ != "name"@
}

/// The nodes and edges of a graph, with the shape kept for its algorithms
/// and, for the nodes and for the edges, a map from the number of an
/// identifier to the position at which it stands.
pub struct GraphStore<N, E> {
    topology: Graph<(), (), Directed, usize>,
    nodes: Vec<NodeEntry<N>>,
    edges: Vec<EdgeEntry<E>>,
    node_at: HashMap<u128, usize>,
    edge_at: HashMap<u128, usize>,
}

/// A directed multigraph whose nodes and edges carry a value and components.
#[verifier::reject_recursive_types(N)]
#[verifier::reject_recursive_types(E)]
pub struct ContextGraph<N, E> {
    pub id: ContextGraphId,
    pub metadata: Metadata,
    pub invariants: Vec<InvariantBox<N, E>>,
    pub store: GraphStore<N, E>,
}

/// `e` is a node that has just been made: it has the identifier and the
/// value, and no components.
pub open spec fn is_new_node<N>(e: NodeEntry<N>, id: NodeId, value: N) -> bool {
    &&& e.id == id
    &&& e.value == value
    &&& e.components@ == Map::<TypeId, ComponentBox>::empty()
}

/// `e` is an edge that has just been made: it has the identifier, the ends
/// and the value, and no components.
pub open spec fn is_new_edge<E>(
    e: EdgeEntry<E>,
    id: EdgeId,
    source: NodeId,
    target: NodeId,
    value: E,
) -> bool {
    &&& e.id == id
    &&& e.source == source
    &&& e.target == target
    &&& e.value == value
    &&& e.components@ == Map::<TypeId, ComponentBox>::empty()
}

/// What checking `rules` in their order on the graph gives: `Ok` where each
/// of them answers `Ok`, else the answer of the first that does not.
pub open spec fn first_refusal<N, E>(
    rules: Seq<InvariantBox<N, E>>,
    graph: ContextGraph<N, E>,
    out: Result<(), GraphErrorView>,
) -> bool {
    if forall|i: int| 0 <= i < rules.len() ==> #[trigger] verdict(rules[i], graph) is Ok {
        out is Ok
    } else {
        exists|i: int|
            0 <= i < rules.len() && #[trigger] verdict(rules[i], graph) is Err && out == verdict(
                rules[i],
                graph,
            ) && forall|j: int| 0 <= j < i ==> #[trigger] verdict(rules[j], graph) is Ok
    }
}

/// The message that an invariant's refusal is reported with: its own
/// description where it gave one, else the message of its error.
pub open spec fn refusal_text(v: GraphErrorView) -> Seq<char> {
    match v {
        GraphErrorView::InvariantViolation(s) => s,
        _ => v.message(),
    }
}

/// The message that the refusal `e` is reported with.
pub open spec fn violation_text(e: GraphError) -> Seq<char> {
    refusal_text(e@)
}

impl<N, E> ContextGraph<N, E> {
    /// The nodes, in the order in which the graph holds them.
    pub closed spec fn node_seq(&self) -> Seq<NodeEntry<N>> {
        self.store.nodes@
    }

    /// The edges, in the order in which the graph holds them.
    pub closed spec fn edge_seq(&self) -> Seq<EdgeEntry<E>> {
        self.store.edges@
    }

    /// The shape that the graph keeps for its algorithms agrees with its
    /// nodes and edges.
    /// The numbers of the nodes' identifiers, in the order of the nodes.
    pub closed spec fn node_nums(&self) -> Seq<u128> {
        Seq::new(self.store.nodes@.len(), |i: int| self.store.nodes@[i].id.0)
    }

    /// The numbers of the edges' identifiers, in the order of the edges.
    pub closed spec fn edge_nums(&self) -> Seq<u128> {
        Seq::new(self.store.edges@.len(), |i: int| self.store.edges@[i].id.0)
    }

    /// The graph finds each node and each edge by its identifier: its two
    /// maps hold, for each identifier, the position at which it stands.
    pub closed spec fn indexed(&self) -> bool {
        &&& indexes(self.store.node_at@, self.node_nums())
        &&& indexes(self.store.edge_at@, self.edge_nums())
    }

    pub closed spec fn synced(&self) -> bool {
        &&& topology_nodes(self.store.topology) == self.store.nodes@.len()
        &&& topology_arcs(self.store.topology).len() == self.store.edges@.len()
        &&& forall|k: int|
            0 <= k < self.store.edges@.len() ==> {
                let arc = #[trigger] topology_arcs(self.store.topology)[k];
                &&& 0 <= arc.0 < self.store.nodes@.len()
                &&& 0 <= arc.1 < self.store.nodes@.len()
                &&& self.store.nodes@[arc.0].id == self.store.edges@[k].source
                &&& self.store.nodes@[arc.1].id == self.store.edges@[k].target
            }
    }

    /// The identifiers of the nodes.
    pub open spec fn node_ids(&self) -> Seq<NodeId> {
        Seq::new(self.node_seq().len(), |i: int| self.node_seq()[i].id)
    }

    /// The identifiers of the edges.
    pub open spec fn edge_ids(&self) -> Seq<EdgeId> {
        Seq::new(self.edge_seq().len(), |i: int| self.edge_seq()[i].id)
    }

    /// The links of the graph: for each edge its source and its target.
    pub open spec fn links(&self) -> Seq<(NodeId, NodeId)> {
        Seq::new(self.edge_seq().len(), |k: int| (self.edge_seq()[k].source, self.edge_seq()[k].target))
    }

    /// Whether a node has the identifier.
    pub open spec fn contains_node(&self, id: NodeId) -> bool {
        self.node_ids().contains(id)
    }

    /// Whether an edge has the identifier.
    pub open spec fn contains_edge(&self, id: EdgeId) -> bool {
        self.edge_ids().contains(id)
    }

    /// The node with the identifier.
    pub open spec fn node(&self, id: NodeId) -> NodeEntry<N> {
        self.node_seq()[self.node_ids().index_of(id)]
    }

    /// The edge with the identifier.
    pub open spec fn edge(&self, id: EdgeId) -> EdgeEntry<E> {
        self.edge_seq()[self.edge_ids().index_of(id)]
    }

    /// The graph is well formed: no two nodes and no two edges share an
    /// identifier, and both ends of every edge are nodes of the graph.
    pub open spec fn wf(&self) -> bool {
        &&& self.synced()
        &&& self.indexed()
        &&& self.node_ids().no_duplicates()
        &&& self.edge_ids().no_duplicates()
        &&& forall|k: int|
            0 <= k < self.edge_seq().len() ==> self.contains_node(
                (#[trigger] self.edge_seq()[k]).source,
            ) && self.contains_node(self.edge_seq()[k].target)
    }

    /// The same edges and surroundings.
    pub open spec fn same_edges_as(&self, other: &Self) -> bool {
        &&& self.edge_seq() == other.edge_seq()
        &&& self.id == other.id
        &&& self.metadata == other.metadata
        &&& self.invariants == other.invariants
    }

    /// The same nodes and surroundings.
    pub open spec fn same_nodes_as(&self, other: &Self) -> bool {
        &&& self.node_seq() == other.node_seq()
        &&& self.id == other.id
        &&& self.metadata == other.metadata
        &&& self.invariants == other.invariants
    }

    proof fn lemma_links(&self)
        requires
            self.synced(),
        ensures
            arcs_in_range(self.node_seq().len() as int, topology_arcs(self.store.topology)),
            self.links() == relabel(self.node_ids(), topology_arcs(self.store.topology)),
            forall|k: int|
                0 <= k < self.edge_seq().len() ==> self.contains_node(
                    (#[trigger] self.edge_seq()[k]).source,
                ) && self.contains_node(self.edge_seq()[k].target),
    {
        let arcs = topology_arcs(self.store.topology);
        let ids = self.node_ids();
        assert forall|k: int| 0 <= k < arcs.len() implies 0 <= (#[trigger] arcs[k]).0 < ids.len()
            && 0 <= arcs[k].1 < ids.len() by {}
        assert forall|k: int| 0 <= k < self.edge_seq().len() implies self.contains_node(
            (#[trigger] self.edge_seq()[k]).source,
        ) && self.contains_node(self.edge_seq()[k].target) by {
            let arc = arcs[k];
            assert(ids[arc.0] == self.edge_seq()[k].source);
            assert(ids[arc.1] == self.edge_seq()[k].target);
        }
        assert forall|k: int| 0 <= k < arcs.len() implies self.links()[k] == relabel(ids, arcs)[k] by {
            let arc = arcs[k];
            assert(ids[arc.0] == self.edge_seq()[k].source);
            assert(ids[arc.1] == self.edge_seq()[k].target);
        }
        assert(self.links() =~= relabel(ids, arcs));
    }

    /// An empty graph with a new identifier, named `name` in its metadata.
    pub fn new(name: &str) -> (g: Self)
        ensures
            g.wf(),
            g.node_seq().len() == 0,
            g.edge_seq().len() == 0,
            g.invariants@.len() == 0,
            g.metadata.description is None,
            g.metadata.tags@.len() == 0,
            g.metadata.properties@.len() == 1,
            g.metadata.properties@[0].0@ == "name"@,
            g.metadata.properties@[0].1@ == name@,
    {
        let mut metadata = Metadata::default();
        metadata.properties.push(("name".to_owned(), name.to_owned()));
        let g = ContextGraph {
            id: ContextGraphId::new(),
            metadata,
            invariants: Vec::new(),
            store: GraphStore {
                topology: topology_new(),
                nodes: Vec::new(),
                edges: Vec::new(),
                node_at: HashMap::new(),
                edge_at: HashMap::new(),
            },
        };
        proof {
            assert(g.node_ids() =~= Seq::<NodeId>::empty());
            assert(g.edge_ids() =~= Seq::<EdgeId>::empty());
            assert(g.node_nums() =~= Seq::<u128>::empty());
            assert(g.edge_nums() =~= Seq::<u128>::empty());
        }
        g
    }

    /// The name that the graph was made with; empty where the metadata holds
    /// none.
    pub fn name(&self) -> (r: &str)
        ensures
            is_name_in(self.metadata.properties@, r@),
    {
        let key = "name".to_owned();
        let mut i: usize = 0;
        while i < self.metadata.properties.len()
            invariant
                key@ == "name"@,
                i <= self.metadata.properties@.len(),
                forall|j: int| 0 <= j < i ==> self.metadata.properties@[j].0@ != "name"@,
            decreases self.metadata.properties@.len() - i,
        {
            if self.metadata.properties[i].0 == key {
                proof {
                    assert(keyed_name(self.metadata.properties@, i as int));
                }
                return self.metadata.properties[i].1.as_str();
            }
            i += 1;
        }
        proof {
            reveal_strlit("");
        }
        ""
    }

    /// The number of nodes.
    pub fn node_count(&self) -> (r: usize)
        ensures
            r == self.node_seq().len(),
    {
        self.store.nodes.len()
    }

    /// The number of edges.
    pub fn edge_count(&self) -> (r: usize)
        ensures
            r == self.edge_seq().len(),
    {
        self.store.edges.len()
    }

    /// The position of the node with the identifier.
    pub fn get_node_index(&self, id: NodeId) -> (r: Option<usize>)
        requires
            self.wf(),
        ensures
            match r {
                Some(i) => i < self.node_seq().len() && self.node_seq()[i as int].id == id,
                None => !self.contains_node(id),
            },
    {
        proof {
            lemma_indexes_lookup(self.store.node_at@, self.node_nums(), id.0);
            if self.contains_node(id) {
                let j = choose|j: int| 0 <= j < self.node_ids().len() && self.node_ids()[j] == id;
                assert(self.node_nums()[j] == id.0);
            }
            if self.store.node_at@.contains_key(id.0) {
                let i = self.store.node_at@[id.0] as int;
                assert(self.node_nums()[i] == self.store.nodes@[i].id.0);
            }
        }
        lookup(&self.store.node_at, id.0)
    }

    /// The position of the edge with the identifier.
    pub fn get_edge_index(&self, id: EdgeId) -> (r: Option<usize>)
        requires
            self.wf(),
        ensures
            match r {
                Some(i) => i < self.edge_seq().len() && self.edge_seq()[i as int].id == id,
                None => !self.contains_edge(id),
            },
    {
        proof {
            lemma_indexes_lookup(self.store.edge_at@, self.edge_nums(), id.0);
            if self.contains_edge(id) {
                let j = choose|j: int| 0 <= j < self.edge_ids().len() && self.edge_ids()[j] == id;
                assert(self.edge_nums()[j] == id.0);
            }
            if self.store.edge_at@.contains_key(id.0) {
                let i = self.store.edge_at@[id.0] as int;
                assert(self.edge_nums()[i] == self.store.edges@[i].id.0);
            }
        }
        lookup(&self.store.edge_at, id.0)
    }

    proof fn lemma_node_at(&self, i: int)
        requires
            self.node_ids().no_duplicates(),
            0 <= i < self.node_seq().len(),
        ensures
            self.contains_node(self.node_seq()[i].id),
            self.node_ids().index_of(self.node_seq()[i].id) == i,
            self.node(self.node_seq()[i].id) == self.node_seq()[i],
    {
        let ids = self.node_ids();
        assert(ids[i] == self.node_seq()[i].id);
        let j = ids.index_of(ids[i]);
        assert(ids[j] == ids[i]);
    }

    proof fn lemma_edge_at(&self, i: int)
        requires
            self.edge_ids().no_duplicates(),
            0 <= i < self.edge_seq().len(),
        ensures
            self.contains_edge(self.edge_seq()[i].id),
            self.edge_ids().index_of(self.edge_seq()[i].id) == i,
            self.edge(self.edge_seq()[i].id) == self.edge_seq()[i],
    {
        let ids = self.edge_ids();
        assert(ids[i] == self.edge_seq()[i].id);
        let j = ids.index_of(ids[i]);
        assert(ids[j] == ids[i]);
    }

    /// The node with the identifier.
    pub fn get_node(&self, id: NodeId) -> (r: Option<&NodeEntry<N>>)
        requires
            self.wf(),
        ensures
            self.node_found(id, r),
    {
        match self.get_node_index(id) {
            Some(i) => {
                proof {
                    self.lemma_node_at(i as int);
                }
                Some(&self.store.nodes[i])
            },
            None => None,
        }
    }

    /// The edge with the identifier.
    pub fn get_edge(&self, id: EdgeId) -> (r: Option<&EdgeEntry<E>>)
        requires
            self.wf(),
        ensures
            r == if self.contains_edge(id) {
                Some(&self.edge(id))
            } else {
                None
            },
    {
        match self.get_edge_index(id) {
            Some(i) => {
                proof {
                    self.lemma_edge_at(i as int);
                }
                Some(&self.store.edges[i])
            },
            None => None,
        }
    }

    /// The value of the node with the identifier.
    pub fn get_node_value(&self, id: NodeId) -> (r: Option<&N>)
        requires
            self.wf(),
        ensures
            r == if self.contains_node(id) {
                Some(&self.node(id).value)
            } else {
                None
            },
    {
        match self.get_node(id) {
            Some(entry) => Some(&entry.value),
            None => None,
        }
    }

    /// The value of the edge with the identifier.
    pub fn get_edge_value(&self, id: EdgeId) -> (r: Option<&E>)
        requires
            self.wf(),
        ensures
            r == if self.contains_edge(id) {
                Some(&self.edge(id).value)
            } else {
                None
            },
    {
        match self.get_edge(id) {
            Some(entry) => Some(&entry.value),
            None => None,
        }
    }

    /// `self` is `before` but for the node at position `i`, which has kept
    /// its identifier.
    pub closed spec fn changed_node_of(&self, before: &Self, i: int) -> bool {
        &&& 0 <= i < before.store.nodes@.len()
        &&& self.store.nodes@ == before.store.nodes@.update(i, self.store.nodes@[i])
        &&& self.store.nodes@[i].id == before.store.nodes@[i].id
        &&& self.store.edges == before.store.edges
        &&& self.store.topology == before.store.topology
        &&& self.store.node_at == before.store.node_at
        &&& self.store.edge_at == before.store.edge_at
    }

    proof fn lemma_changed_node(&self, after: Self, i: int)
        requires
            self.wf(),
            after.changed_node_of(self, i),
        ensures
            after.wf(),
    {
        assert(after.node_ids() =~= self.node_ids());
        assert(after.edge_ids() =~= self.edge_ids());
        assert(after.node_nums() =~= self.node_nums());
        assert(after.edge_nums() =~= self.edge_nums());
        self.lemma_links();
        assert(after.synced());
        after.lemma_links();
    }

    /// The node with the identifier, to be changed in place. The graph stays
    /// well formed as long as the node keeps its identifier.
    pub fn get_node_mut(&mut self, id: NodeId) -> (r: Option<&mut NodeEntry<N>>)
        requires
            old(self).wf(),
        ensures
            !old(self).contains_node(id) ==> r is None && *final(self) == *old(self),
            old(self).contains_node(id) ==> r is Some && *r->0 == old(self).node(id),
            old(self).contains_node(id) ==> final(self).node_seq() == old(self).node_seq().update(
                old(self).node_ids().index_of(id),
                *final(r->0),
            ),
            old(self).contains_node(id) ==> final(self).same_edges_as(old(self)),
            old(self).contains_node(id) && final(r->0).id == id ==> final(self).wf(),
    {
        match self.get_node_index(id) {
            Some(i) => {
                proof {
                    self.lemma_node_at(i as int);
                }
                let ghost before = *self;
                proof {
                    assert forall|after: Self|
                        after.changed_node_of(&before, i as int) implies #[trigger] after.wf() by {
                        before.lemma_changed_node(after, i as int);
                    }
                }
                let r = &mut self.store.nodes[i];
                Some(r)
            },
            None => None,
        }
    }

    /// The edge with the identifier, to be changed in place. The graph stays
    /// well formed as long as the edge keeps its identifier and its ends.
    pub fn get_edge_mut(&mut self, id: EdgeId) -> (r: Option<&mut EdgeEntry<E>>)
        requires
            old(self).wf(),
        ensures
            !old(self).contains_edge(id) ==> r is None && *final(self) == *old(self),
            old(self).contains_edge(id) ==> r is Some && *r->0 == old(self).edge(id),
            old(self).contains_edge(id) ==> final(self).edge_seq() == old(self).edge_seq().update(
                old(self).edge_ids().index_of(id),
                *final(r->0),
            ),
            old(self).contains_edge(id) ==> final(self).same_nodes_as(old(self)),
            old(self).contains_edge(id) && final(r->0).id == id && final(r->0).source == old(
                self,
            ).edge(id).source && final(r->0).target == old(self).edge(id).target ==> final(self).wf(),
    {
        match self.get_edge_index(id) {
            Some(i) => {
                proof {
                    self.lemma_edge_at(i as int);
                }
                let ghost before = *self;
                proof {
                    assert forall|after: Self|
                        after.changed_edge_of(&before, i as int) implies #[trigger] after.wf() by {
                        before.lemma_changed_edge(after, i as int);
                    }
                }
                let r = &mut self.store.edges[i];
                Some(r)
            },
            None => None,
        }
    }

    /// `self` is `before` but for the edge at position `i`, which has kept
    /// its identifier and its ends.
    pub closed spec fn changed_edge_of(&self, before: &Self, i: int) -> bool {
        &&& 0 <= i < before.store.edges@.len()
        &&& self.store.edges@ == before.store.edges@.update(i, self.store.edges@[i])
        &&& self.store.edges@[i].id == before.store.edges@[i].id
        &&& self.store.edges@[i].source == before.store.edges@[i].source
        &&& self.store.edges@[i].target == before.store.edges@[i].target
        &&& self.store.nodes == before.store.nodes
        &&& self.store.topology == before.store.topology
        &&& self.store.node_at == before.store.node_at
        &&& self.store.edge_at == before.store.edge_at
    }

    proof fn lemma_changed_edge(&self, after: Self, i: int)
        requires
            self.wf(),
            after.changed_edge_of(self, i),
        ensures
            after.wf(),
    {
        assert(after.node_ids() =~= self.node_ids());
        assert(after.edge_ids() =~= self.edge_ids());
        assert(after.node_nums() =~= self.node_nums());
        assert(after.edge_nums() =~= self.edge_nums());
        self.lemma_links();
        assert(after.synced());
        after.lemma_links();
    }

    /// The identifiers of the nodes, in the order in which the graph holds
    /// them.
    pub fn nodes(&self) -> (r: Vec<NodeId>)
        ensures
            r@ == self.node_ids(),
    {
        let mut r: Vec<NodeId> = Vec::new();
        let mut i: usize = 0;
        while i < self.store.nodes.len()
            invariant
                i <= self.store.nodes@.len(),
                r@.len() == i,
                forall|j: int| 0 <= j < i ==> r@[j] == self.store.nodes@[j].id,
            decreases self.store.nodes@.len() - i,
        {
            r.push(self.store.nodes[i].id);
            i += 1;
        }
        assert(r@ =~= self.node_ids());
        r
    }

    /// The identifiers of the edges, in the order in which the graph holds
    /// them.
    pub fn edges(&self) -> (r: Vec<EdgeId>)
        ensures
            r@ == self.edge_ids(),
    {
        let mut r: Vec<EdgeId> = Vec::new();
        let mut i: usize = 0;
        while i < self.store.edges.len()
            invariant
                i <= self.store.edges@.len(),
                r@.len() == i,
                forall|j: int| 0 <= j < i ==> r@[j] == self.store.edges@[j].id,
            decreases self.store.edges@.len() - i,
        {
            r.push(self.store.edges[i].id);
            i += 1;
        }
        assert(r@ =~= self.edge_ids());
        r
    }

    /// All nodes with their identifiers, in the order in which the graph
    /// holds them.
    pub fn get_all_nodes(&self) -> (r: Vec<(NodeId, &NodeEntry<N>)>)
        ensures
            r@.len() == self.node_seq().len(),
            forall|i: int|
                0 <= i < r@.len() ==> (#[trigger] r@[i]).0 == self.node_seq()[i].id && *r@[i].1
                    == self.node_seq()[i],
    {
        let mut r: Vec<(NodeId, &NodeEntry<N>)> = Vec::new();
        let mut i: usize = 0;
        while i < self.store.nodes.len()
            invariant
                i <= self.store.nodes@.len(),
                r@.len() == i,
                forall|j: int|
                    0 <= j < i ==> (#[trigger] r@[j]).0 == self.store.nodes@[j].id && *r@[j].1
                        == self.store.nodes@[j],
            decreases self.store.nodes@.len() - i,
        {
            r.push((self.store.nodes[i].id, &self.store.nodes[i]));
            i += 1;
        }
        r
    }

    /// All edges with their identifiers, in the order in which the graph
    /// holds them.
    pub fn get_all_edges(&self) -> (r: Vec<(EdgeId, &EdgeEntry<E>)>)
        ensures
            r@.len() == self.edge_seq().len(),
            forall|i: int|
                0 <= i < r@.len() ==> (#[trigger] r@[i]).0 == self.edge_seq()[i].id && *r@[i].1
                    == self.edge_seq()[i],
    {
        let mut r: Vec<(EdgeId, &EdgeEntry<E>)> = Vec::new();
        let mut i: usize = 0;
        while i < self.store.edges.len()
            invariant
                i <= self.store.edges@.len(),
                r@.len() == i,
                forall|j: int|
                    0 <= j < i ==> (#[trigger] r@[j]).0 == self.store.edges@[j].id && *r@[j].1
                        == self.store.edges@[j],
            decreases self.store.edges@.len() - i,
        {
            r.push((self.store.edges[i].id, &self.store.edges[i]));
            i += 1;
        }
        r
    }

    fn node_numbers(&self) -> (r: Vec<u128>)
        ensures
            r@.len() == self.store.nodes@.len(),
            forall|j: int| 0 <= j < r@.len() ==> r@[j] == self.store.nodes@[j].id.0,
    {
        let mut r: Vec<u128> = Vec::new();
        let mut i: usize = 0;
        while i < self.store.nodes.len()
            invariant
                i <= self.store.nodes@.len(),
                r@.len() == i,
                forall|j: int| 0 <= j < i ==> r@[j] == self.store.nodes@[j].id.0,
            decreases self.store.nodes@.len() - i,
        {
            r.push(self.store.nodes[i].id.0);
            i += 1;
        }
        r
    }

    fn edge_numbers(&self) -> (r: Vec<u128>)
        ensures
            r@.len() == self.store.edges@.len(),
            forall|j: int| 0 <= j < r@.len() ==> r@[j] == self.store.edges@[j].id.0,
    {
        let mut r: Vec<u128> = Vec::new();
        let mut i: usize = 0;
        while i < self.store.edges.len()
            invariant
                i <= self.store.edges@.len(),
                r@.len() == i,
                forall|j: int| 0 <= j < i ==> r@[j] == self.store.edges@[j].id.0,
            decreases self.store.edges@.len() - i,
        {
            r.push(self.store.edges[i].id.0);
            i += 1;
        }
        r
    }

    /// `self` is `before` with one more node, the last, newly made with the
    /// identifier and the value.
    pub open spec fn with_new_node(&self, before: &Self, id: NodeId, value: N) -> bool {
        &&& self.node_seq().len() == before.node_seq().len() + 1
        &&& self.node_seq().drop_last() == before.node_seq()
        &&& is_new_node(self.node_seq().last(), id, value)
        &&& self.same_edges_as(before)
    }

    /// `self` is `before` with one more edge, the last, newly made with the
    /// identifier, the ends and the value.
    pub open spec fn with_new_edge(
        &self,
        before: &Self,
        id: EdgeId,
        source: NodeId,
        target: NodeId,
        value: E,
    ) -> bool {
        &&& self.edge_seq().len() == before.edge_seq().len() + 1
        &&& self.edge_seq().drop_last() == before.edge_seq()
        &&& is_new_edge(self.edge_seq().last(), id, source, target, value)
        &&& self.same_nodes_as(before)
    }

    /// Adds a node with the value and hands out its identifier, which no
    /// other node of the graph has.
    pub fn add_node(&mut self, value: N) -> (id: NodeId)
        requires
            old(self).wf(),
        ensures
            final(self).wf(),
            !old(self).contains_node(id),
            final(self).with_new_node(old(self), id, value),
    {
        let wish = NodeId::new();
        self.add_node_with_id(wish, value)
    }

    /// Adds a node with the value under the identifier `wish` where no node
    /// has it, else under the least number that no node has, and hands out
    /// the identifier.
    pub fn add_node_with_id(&mut self, wish: NodeId, value: N) -> (id: NodeId)
        requires
            old(self).wf(),
        ensures
            final(self).wf(),
            !old(self).contains_node(id),
            !old(self).contains_node(wish) ==> id == wish,
            final(self).with_new_node(old(self), id, value),
    {
        let ghost before = *self;
        proof {
            lemma_indexes_lookup(before.store.node_at@, before.node_nums(), wish.0);
        }
        let raw = match lookup(&self.store.node_at, wish.0) {
            None => wish.0,
            Some(_) => {
                let used = self.node_numbers();
                assert(used@ =~= before.node_nums());
                unused_id(wish.0, &used)
            },
        };
        let id = NodeId(raw);
        let count = self.store.nodes.len();
        proof {
            if before.contains_node(id) {
                let j = choose|j: int|
                    0 <= j < before.node_ids().len() && before.node_ids()[j] == id;
                assert(before.node_nums()[j] == raw);
            }
            if !before.contains_node(wish) && before.node_nums().contains(wish.0) {
                let j = choose|j: int|
                    0 <= j < before.node_nums().len() && before.node_nums()[j] == wish.0;
                assert(before.node_ids()[j] == wish);
            }
            if before.node_nums().contains(raw) {
                let j = choose|j: int| 0 <= j < before.node_nums().len() && before.node_nums()[j] == raw;
                assert(before.node_ids()[j] == id);
            }
            before.lemma_links();
            assert(before.node_nums().len() == count);
            lemma_indexes_push(before.store.node_at@, before.node_nums(), raw);
        }
        let at = topology_add_node(&mut self.store.topology);
        self.store.nodes.push(NodeEntry::with_id(id, value));
        self.store.node_at.insert(raw, at);
        proof {
            assert(self.node_seq().drop_last() =~= before.node_seq());
            assert(self.node_ids() =~= before.node_ids().push(id));
            assert(self.edge_ids() =~= before.edge_ids());
            assert(self.node_nums() =~= before.node_nums().push(raw));
            assert(self.edge_nums() =~= before.edge_nums());
            assert(self.synced());
            self.lemma_links();
        }
        id
    }

    /// Runs the registered rules in the order of their registration and hands
    /// out the first refusal. Without rules there is none.
    pub fn check_invariants(&self) -> (r: GraphResult<()>)
        requires
            self.wf(),
        ensures
            first_refusal(self.invariants@, *self, outcome(r)),
    {
        let mut i: usize = 0;
        while i < self.invariants.len()
            invariant
                self.wf(),
                i <= self.invariants@.len(),
                forall|j: int| 0 <= j < i ==> #[trigger] verdict(self.invariants@[j], *self) is Ok,
            decreases self.invariants@.len() - i,
        {
            match run_check(&self.invariants[i], self) {
                Ok(()) => {},
                Err(e) => {
                    proof {
                        assert(verdict(self.invariants@[i as int], *self) is Err);
                    }
                    return Err(e);
                },
            }
            i += 1;
        }
        Ok(())
    }

    /// Settles the edge that was added last, given what the rules said of
    /// the graph with it: the edge stays where they agreed, and is taken out
    /// again where one refused.
    pub fn confirm_last_edge(&mut self, checked: GraphResult<()>) -> (r: GraphResult<EdgeId>)
        requires
            old(self).wf(),
            old(self).edge_seq().len() > 0,
        ensures
            final(self).wf(),
            final(self).same_nodes_as(old(self)),
            checked is Ok ==> r == Ok::<EdgeId, GraphError>(old(self).edge_seq().last().id)
                && final(self).edge_seq() == old(self).edge_seq(),
            checked matches Err(e) ==> final(self).edge_seq() == old(self).edge_seq().drop_last()
                && r is Err && r->Err_0 is InvariantViolation && r->Err_0->InvariantViolation_0@
                == violation_text(e),
    {
        let last = self.store.edges.len() - 1;
        match checked {
            Ok(()) => Ok(self.store.edges[last].id),
            Err(e) => {
                let ghost before = *self;
                proof {
                    before.lemma_links();
                }
                topology_remove_arc(&mut self.store.topology, last);
                let gone = self.store.edges[last].id.0;
                self.store.edges.pop();
                self.store.edge_at.remove(&gone);
                proof {
                    lemma_indexes_swap_remove(before.store.edge_at@, before.edge_nums(), last as int);
                    assert(before.edge_nums()[last as int] == gone);
                    assert(self.edge_nums() =~= swap_removed(before.edge_nums(), last as int));
                    assert(self.node_nums() =~= before.node_nums());
                    assert(topology_arcs(self.store.topology) =~= topology_arcs(
                        before.store.topology,
                    ).drop_last());
                    assert(self.edge_ids() =~= before.edge_ids().drop_last());
                    assert(self.node_ids() =~= before.node_ids());
                    assert(self.synced());
                    self.lemma_links();
                }
                let text = match e {
                    GraphError::InvariantViolation(s) => s,
                    other => other.to_string(),
                };
                Err(GraphError::InvariantViolation(text))
            },
        }
    }

    /// Adds an edge between two nodes of the graph and hands out its
    /// identifier. Where a registered rule refuses the graph with the edge,
    /// the edge is taken out again.
    pub fn add_edge(&mut self, source: NodeId, target: NodeId, value: E) -> (r: GraphResult<EdgeId>)
        requires
            old(self).wf(),
        ensures
            final(self).wf(),
            final(self).same_nodes_as(old(self)),
            old(self).added_edge(final(self), source, target, value, r),
    {
        let wish = EdgeId::new();
        self.add_edge_with_id(wish, source, target, value)
    }

    /// What adding an edge from `source` to `target` makes of `self`: an
    /// error and no change where an end is missing, the first missing end
    /// named; else the graph with the edge as its last, under an identifier
    /// that no other edge has, is offered to the rules in their order, and
    /// the edge stays exactly where each of them answers `Ok`; where one
    /// refuses, the graph is as before and the first refusal is reported.
    pub open spec fn added_edge(
        &self,
        after: &Self,
        source: NodeId,
        target: NodeId,
        value: E,
        r: GraphResult<EdgeId>,
    ) -> bool {
        if !self.contains_node(source) {
            &&& r is Err
            &&& r->Err_0 == GraphError::NodeNotFound(source)
            &&& after.edge_seq() == self.edge_seq()
        } else if !self.contains_node(target) {
            &&& r is Err
            &&& r->Err_0 == GraphError::NodeNotFound(target)
            &&& after.edge_seq() == self.edge_seq()
        } else {
            &&& match r {
                Ok(id) => !self.contains_edge(id) && after.with_new_edge(self, id, source, target, value),
                Err(e) => e is InvariantViolation && after.edge_seq() == self.edge_seq()
                    && self.invariants@.len() > 0,
            }
            &&& exists|mid: Self, out: Result<(), GraphErrorView>| #[trigger]
                self.offered(mid, source, target, value, out) && self.settled(after, mid, out, r)
        }
    }

    /// `mid` is the graph with the new edge from `source` to `target` as
    /// its last, under an identifier that no edge had, and `out` is what
    /// the rules of the graph, in their order, answer for `mid`.
    pub open spec fn offered(
        &self,
        mid: Self,
        source: NodeId,
        target: NodeId,
        value: E,
        out: Result<(), GraphErrorView>,
    ) -> bool {
        &&& mid.wf()
        &&& mid.with_new_edge(self, mid.edge_seq().last().id, source, target, value)
        &&& !self.contains_edge(mid.edge_seq().last().id)
        &&& first_refusal(self.invariants@, mid, out)
    }

    /// What becomes of the graph `mid` that was offered to the rules:
    /// where they answer `Ok` it stays and the identifier of its new edge
    /// is handed out; where one refuses, the graph is as before and the
    /// refusal is reported as a violation with its text.
    pub open spec fn settled(
        &self,
        after: &Self,
        mid: Self,
        out: Result<(), GraphErrorView>,
        r: GraphResult<EdgeId>,
    ) -> bool {
        match out {
            Ok(_) => r == Ok::<EdgeId, GraphError>(mid.edge_seq().last().id) && after.edge_seq()
                == mid.edge_seq(),
            Err(v) => r is Err && r->Err_0 is InvariantViolation
                && r->Err_0->InvariantViolation_0@ == refusal_text(v) && after.edge_seq()
                == self.edge_seq(),
        }
    }

    /// As `add_edge`, with the identifier `wish` for the edge where no edge
    /// has it, else the least number that no edge has.
    pub fn add_edge_with_id(&mut self, wish: EdgeId, source: NodeId, target: NodeId, value: E) -> (r:
        GraphResult<EdgeId>)
        requires
            old(self).wf(),
        ensures
            final(self).wf(),
            final(self).same_nodes_as(old(self)),
            old(self).added_edge(final(self), source, target, value, r),
            r is Ok && !old(self).contains_edge(wish) ==> r->Ok_0 == wish,
    {
        let s = match self.get_node_index(source) {
            Some(i) => i,
            None => {
                return Err(GraphError::NodeNotFound(source));
            },
        };
        assert(self.node_ids()[s as int] == source);
        let t = match self.get_node_index(target) {
            Some(i) => i,
            None => {
                return Err(GraphError::NodeNotFound(target));
            },
        };
        assert(self.node_ids()[t as int] == target);
        let ghost before = *self;
        proof {
            lemma_indexes_lookup(before.store.edge_at@, before.edge_nums(), wish.0);
        }
        let raw = match lookup(&self.store.edge_at, wish.0) {
            None => wish.0,
            Some(_) => {
                let used = self.edge_numbers();
                assert(used@ =~= before.edge_nums());
                unused_id(wish.0, &used)
            },
        };
        let id = EdgeId(raw);
        let count = self.store.edges.len();
        proof {
            if before.contains_edge(id) {
                let j = choose|j: int|
                    0 <= j < before.edge_ids().len() && before.edge_ids()[j] == id;
                assert(before.edge_nums()[j] == raw);
            }
            if !before.contains_edge(wish) && before.edge_nums().contains(wish.0) {
                let j = choose|j: int|
                    0 <= j < before.edge_nums().len() && before.edge_nums()[j] == wish.0;
                assert(before.edge_ids()[j] == wish);
            }
            before.lemma_links();
            assert(before.edge_nums().len() == count);
            lemma_indexes_push(before.store.edge_at@, before.edge_nums(), raw);
        }
        let at = topology_add_arc(&mut self.store.topology, s, t);
        self.store.edges.push(EdgeEntry::with_id(id, source, target, value));
        self.store.edge_at.insert(raw, at);
        proof {
            assert(self.edge_seq().drop_last() =~= before.edge_seq());
            assert(self.edge_ids() =~= before.edge_ids().push(id));
            assert(self.node_ids() =~= before.node_ids());
            assert(self.edge_nums() =~= before.edge_nums().push(raw));
            assert(self.node_nums() =~= before.node_nums());
            assert(self.synced());
            self.lemma_links();
        }
        let ghost mid = *self;
        let checked = self.check_invariants();
        let r = self.confirm_last_edge(checked);
        proof {
            assert(before.offered(mid, source, target, value, outcome(checked)));
            assert(before.settled(&*self, mid, outcome(checked), r));
        }
        r
    }

    /// What removing the edge with the identifier makes of `self`: nothing
    /// for an unknown identifier; else the edge is handed out and the last
    /// edge takes its place.
    pub open spec fn edge_removed(&self, after: &Self, id: EdgeId, r: Option<EdgeEntry<E>>) -> bool {
        if self.contains_edge(id) {
            &&& r == Some(self.edge(id))
            &&& after.edge_seq() == swap_removed(self.edge_seq(), self.edge_ids().index_of(id))
        } else {
            &&& r is None
            &&& after.edge_seq() == self.edge_seq()
        }
    }

    /// What removing the node with the identifier makes of `self`: nothing
    /// for an unknown identifier; else the node is handed out, the last node
    /// takes its place, and of the edges those stay that neither begin nor
    /// end at the node.
    pub open spec fn node_removed(&self, after: &Self, id: NodeId, r: Option<NodeEntry<N>>) -> bool {
        if self.contains_node(id) {
            &&& r == Some(self.node(id))
            &&& after.node_seq() == swap_removed(self.node_seq(), self.node_ids().index_of(id))
            &&& forall|e: EdgeEntry<E>|
                after.edge_seq().contains(e) <==> self.edge_seq().contains(e) && e.source != id
                    && e.target != id
        } else {
            &&& r is None
            &&& after.node_seq() == self.node_seq()
            &&& after.edge_seq() == self.edge_seq()
        }
    }

    /// What looking for the node with the identifier gives.
    pub open spec fn node_found(&self, id: NodeId, r: Option<&NodeEntry<N>>) -> bool {
        r == if self.contains_node(id) {
            Some(&self.node(id))
        } else {
            None
        }
    }

    /// Removes the edge with the identifier and hands it out; the last edge
    /// takes its place. An unknown identifier changes nothing.
    pub fn remove_edge(&mut self, id: EdgeId) -> (r: Option<EdgeEntry<E>>)
        requires
            old(self).wf(),
        ensures
            final(self).wf(),
            final(self).same_nodes_as(old(self)),
            old(self).edge_removed(final(self), id, r),
    {
        match self.get_edge_index(id) {
            Some(i) => {
                proof {
                    self.lemma_edge_at(i as int);
                }
                Some(self.remove_edge_at(i))
            },
            None => None,
        }
    }

    fn remove_edge_at(&mut self, i: usize) -> (r: EdgeEntry<E>)
        requires
            old(self).wf(),
            i < old(self).edge_seq().len(),
        ensures
            final(self).wf(),
            final(self).same_nodes_as(old(self)),
            r == old(self).edge_seq()[i as int],
            final(self).edge_seq() == swap_removed(old(self).edge_seq(), i as int),
            !final(self).contains_edge(r.id),
    {
        let ghost before = *self;
        proof {
            before.lemma_links();
        }
        topology_remove_arc(&mut self.store.topology, i);
        let last = self.store.edges.len() - 1;
        let moved_id = self.store.edges[last].id.0;
        let r = self.store.edges.swap_remove(i);
        self.store.edge_at.remove(&r.id.0);
        if i != last {
            self.store.edge_at.insert(moved_id, i);
        }
        proof {
            lemma_indexes_swap_remove(before.store.edge_at@, before.edge_nums(), i as int);
            assert(before.edge_nums()[i as int] == r.id.0);
            assert(before.edge_nums().last() == moved_id);
            assert(self.store.edge_at@ =~= moved(before.store.edge_at@, before.edge_nums(), i as int));
            assert(self.edge_nums() =~= swap_removed(before.edge_nums(), i as int));
            assert(self.node_nums() =~= before.node_nums());
            assert(self.edge_ids() =~= swap_removed(before.edge_ids(), i as int));
            lemma_swap_removed_no_duplicates(before.edge_ids(), i as int);
            assert(self.node_ids() =~= before.node_ids());
            assert(self.synced());
            self.lemma_links();
        }
        r
    }

    /// Removes every edge that begins or ends at the node.
    fn detach_node(&mut self, id: NodeId)
        requires
            old(self).wf(),
        ensures
            final(self).wf(),
            final(self).same_nodes_as(old(self)),
            forall|e: EdgeEntry<E>|
                final(self).edge_seq().contains(e) <==> old(self).edge_seq().contains(e) && e.source
                    != id && e.target != id,
    {
        let ghost before = *self;
        let mut k: usize = 0;
        while k < self.store.edges.len()
            invariant
                self.wf(),
                self.same_nodes_as(&before),
                k <= self.store.edges@.len(),
                forall|j: int|
                    0 <= j < k ==> (#[trigger] self.store.edges@[j]).source != id
                        && self.store.edges@[j].target != id,
                forall|e: EdgeEntry<E>| self.edge_seq().contains(e) ==> before.edge_seq().contains(e),
                forall|e: EdgeEntry<E>|
                    before.edge_seq().contains(e) && e.source != id && e.target != id
                        ==> self.edge_seq().contains(e),
            decreases self.store.edges@.len() - k,
        {
            if self.store.edges[k].source == id || self.store.edges[k].target == id {
                let ghost mid = *self;
                proof {
                    lemma_swap_removed_contains(mid.edge_seq(), k as int);
                }
                self.remove_edge_at(k);
                proof {
                    assert forall|e: EdgeEntry<E>|
                        before.edge_seq().contains(e) && e.source != id && e.target != id implies self.edge_seq().contains(
                        e,
                    ) by {
                        assert(mid.edge_seq().contains(e));
                        let j = choose|j: int| 0 <= j < mid.edge_seq().len() && mid.edge_seq()[j] == e;
                        assert(j != k);
                    }
                }
            } else {
                k += 1;
            }
        }
        proof {
            assert forall|e: EdgeEntry<E>| self.edge_seq().contains(e) implies e.source != id
                && e.target != id by {
                let j = choose|j: int| 0 <= j < self.edge_seq().len() && self.edge_seq()[j] == e;
                assert(self.store.edges@[j] == e);
            }
        }
    }

    /// Removes the node with the identifier and every edge that begins or
    /// ends at it, and hands the node out; the last node takes its place. An
    /// unknown identifier changes nothing.
    pub fn remove_node(&mut self, id: NodeId) -> (r: Option<NodeEntry<N>>)
        requires
            old(self).wf(),
        ensures
            final(self).wf(),
            final(self).id == old(self).id,
            final(self).metadata == old(self).metadata,
            final(self).invariants == old(self).invariants,
            old(self).node_removed(final(self), id, r),
    {
        let i = match self.get_node_index(id) {
            Some(i) => i,
            None => {
                return None;
            },
        };
        proof {
            self.lemma_node_at(i as int);
        }
        self.detach_node(id);
        let ghost mid = *self;
        proof {
            mid.lemma_links();
            mid.lemma_node_at(i as int);
            assert forall|k: int| 0 <= k < topology_arcs(mid.store.topology).len() implies (
            #[trigger] topology_arcs(mid.store.topology)[k]).0 != i && topology_arcs(
                mid.store.topology,
            )[k].1 != i by {
                assert(mid.edge_seq().contains(mid.edge_seq()[k]));
            }
        }
        topology_remove_node(&mut self.store.topology, i);
        let end = self.store.nodes.len() - 1;
        let moved_id = self.store.nodes[end].id.0;
        let r = self.store.nodes.swap_remove(i);
        self.store.node_at.remove(&r.id.0);
        if i != end {
            self.store.node_at.insert(moved_id, i);
        }
        proof {
            lemma_indexes_swap_remove(mid.store.node_at@, mid.node_nums(), i as int);
            assert(mid.node_nums()[i as int] == r.id.0);
            assert(mid.node_nums().last() == moved_id);
            assert(self.store.node_at@ =~= moved(mid.store.node_at@, mid.node_nums(), i as int));
            assert(self.node_nums() =~= swap_removed(mid.node_nums(), i as int));
            assert(self.edge_nums() =~= mid.edge_nums());
            let last = mid.node_seq().len() - 1;
            assert(self.node_ids() =~= swap_removed(mid.node_ids(), i as int));
            lemma_swap_removed_no_duplicates(mid.node_ids(), i as int);
            lemma_swap_removed_contains(mid.node_ids(), i as int);
            assert(self.edge_ids() =~= mid.edge_ids());
            assert forall|k: int| 0 <= k < self.store.edges@.len() implies {
                let arc = #[trigger] topology_arcs(self.store.topology)[k];
                &&& 0 <= arc.0 < self.store.nodes@.len()
                &&& 0 <= arc.1 < self.store.nodes@.len()
                &&& self.store.nodes@[arc.0].id == self.store.edges@[k].source
                &&& self.store.nodes@[arc.1].id == self.store.edges@[k].target
            } by {
                let old_arc = topology_arcs(mid.store.topology)[k];
                assert(mid.edge_seq().contains(mid.edge_seq()[k]));
                assert(old_arc.0 != i && old_arc.1 != i);
                assert(topology_arcs(self.store.topology)[k] == crate::topology::moved_arc(
                    old_arc,
                    last,
                    i as int,
                ));
            }
            assert(self.synced());
            self.lemma_links();
        }
        Some(r)
    }

    /// The number of edges that begin at the node.
    pub open spec fn out_count(&self, id: NodeId) -> nat {
        self.links().filter(begins_at(id)).len()
    }

    /// The number of edges that end at the node.
    pub open spec fn in_count(&self, id: NodeId) -> nat {
        self.links().filter(ends_at(id)).len()
    }

    proof fn lemma_counts(&self, i: int)
        requires
            self.wf(),
            0 <= i < self.node_seq().len(),
        ensures
            self.out_count(self.node_seq()[i].id) == topology_arcs(self.store.topology).filter(
                begins_at(i),
            ).len(),
            self.in_count(self.node_seq()[i].id) == topology_arcs(self.store.topology).filter(
                ends_at(i),
            ).len(),
    {
        let id = self.node_seq()[i].id;
        let arcs = topology_arcs(self.store.topology);
        let links = self.links();
        self.lemma_links();
        assert forall|k: int| 0 <= k < links.len() implies begins_at(id)(#[trigger] links[k])
            == begins_at(i)(arcs[k]) && ends_at(id)(links[k]) == ends_at(i)(arcs[k]) by {
            let arc = arcs[k];
            assert(self.node_ids()[arc.0] == links[k].0);
            assert(self.node_ids()[arc.1] == links[k].1);
            assert(self.node_ids()[i] == id);
        }
        lemma_count_aligned(links, arcs, begins_at(id), begins_at(i));
        lemma_count_aligned(links, arcs, ends_at(id), ends_at(i));
    }

    proof fn lemma_no_counts(&self, id: NodeId)
        requires
            self.wf(),
            !self.contains_node(id),
        ensures
            self.out_count(id) == 0,
            self.in_count(id) == 0,
    {
        let links = self.links();
        assert forall|k: int| 0 <= k < links.len() implies !begins_at(id)(#[trigger] links[k])
            && !ends_at(id)(links[k]) by {
            assert(self.contains_node(self.edge_seq()[k].source));
            assert(self.contains_node(self.edge_seq()[k].target));
        }
        lemma_count_none(links, begins_at(id));
        lemma_count_none(links, ends_at(id));
    }

    /// The number of edges that begin at the node; none for an unknown node.
    pub fn out_degree(&self, id: NodeId) -> (r: usize)
        requires
            self.wf(),
        ensures
            r == self.out_count(id),
    {
        match self.get_node_index(id) {
            Some(i) => {
                proof {
                    self.lemma_counts(i as int);
                }
                topology_out_degree(&self.store.topology, i)
            },
            None => {
                proof {
                    self.lemma_no_counts(id);
                }
                0
            },
        }
    }

    /// The number of edges that end at the node; none for an unknown node.
    pub fn in_degree(&self, id: NodeId) -> (r: usize)
        requires
            self.wf(),
        ensures
            r == self.in_count(id),
    {
        match self.get_node_index(id) {
            Some(i) => {
                proof {
                    self.lemma_counts(i as int);
                }
                topology_in_degree(&self.store.topology, i)
            },
            None => {
                proof {
                    self.lemma_no_counts(id);
                }
                0
            },
        }
    }

    /// The number of edges that begin at the node plus the number of those
    /// that end at it, so that an edge from the node to itself counts twice;
    /// the greatest number there is where the sum is beyond it.
    pub fn degree(&self, id: NodeId) -> (r: usize)
        requires
            self.wf(),
        ensures
            r == vstd::math::min((self.out_count(id) + self.in_count(id)) as int, usize::MAX as int),
    {
        let incoming = self.in_degree(id);
        let outgoing = self.out_degree(id);
        incoming.saturating_add(outgoing)
    }

    /// As `degree`.
    pub fn total_degree(&self, id: NodeId) -> (r: usize)
        requires
            self.wf(),
        ensures
            r == vstd::math::min((self.out_count(id) + self.in_count(id)) as int, usize::MAX as int),
    {
        self.degree(id)
    }

    /// The identifiers of the nodes that carry a component of type `T`, in
    /// the order in which the graph holds the nodes.
    pub open spec fn nodes_with<T: Component + 'static>(&self) -> Seq<NodeId> {
        self.node_seq().filter_map(
            |e: NodeEntry<N>|
                if e.components@.contains_key(type_key::<T>()) {
                    Some(e.id)
                } else {
                    None
                },
        )
    }

    /// The identifiers of the edges that carry a component of type `T`, in
    /// the order in which the graph holds the edges.
    pub open spec fn edges_with<T: Component + 'static>(&self) -> Seq<EdgeId> {
        self.edge_seq().filter_map(
            |e: EdgeEntry<E>|
                if e.components@.contains_key(type_key::<T>()) {
                    Some(e.id)
                } else {
                    None
                },
        )
    }

    /// The identifiers of the nodes that carry a component of type `T`.
    pub fn query_nodes_with_component<T: Component + 'static>(&self) -> (r: Vec<NodeId>)
        ensures
            r@ == self.nodes_with::<T>(),
    {
        let ghost f = |e: NodeEntry<N>|
            if e.components@.contains_key(type_key::<T>()) {
                Some(e.id)
            } else {
                None
            };
        let mut r: Vec<NodeId> = Vec::new();
        let mut i: usize = 0;
        while i < self.store.nodes.len()
            invariant
                i <= self.store.nodes@.len(),
                r@ == self.store.nodes@.take(i as int).filter_map(f),
                f == |e: NodeEntry<N>|
                    if e.components@.contains_key(type_key::<T>()) {
                        Some(e.id)
                    } else {
                        None
                    },
            decreases self.store.nodes@.len() - i,
        {
            proof {
                self.store.nodes@.lemma_filter_map_take_succ(f, i as int);
            }
            if self.store.nodes[i].components.has::<T>() {
                r.push(self.store.nodes[i].id);
            }
            i += 1;
        }
        assert(self.store.nodes@.take(i as int) =~= self.store.nodes@);
        r
    }

    /// The identifiers of the edges that carry a component of type `T`.
    pub fn query_edges_with_component<T: Component + 'static>(&self) -> (r: Vec<EdgeId>)
        ensures
            r@ == self.edges_with::<T>(),
    {
        let ghost f = |e: EdgeEntry<E>|
            if e.components@.contains_key(type_key::<T>()) {
                Some(e.id)
            } else {
                None
            };
        let mut r: Vec<EdgeId> = Vec::new();
        let mut i: usize = 0;
        while i < self.store.edges.len()
            invariant
                i <= self.store.edges@.len(),
                r@ == self.store.edges@.take(i as int).filter_map(f),
                f == |e: EdgeEntry<E>|
                    if e.components@.contains_key(type_key::<T>()) {
                        Some(e.id)
                    } else {
                        None
                    },
            decreases self.store.edges@.len() - i,
        {
            proof {
                self.store.edges@.lemma_filter_map_take_succ(f, i as int);
            }
            if self.store.edges[i].components.has::<T>() {
                r.push(self.store.edges[i].id);
            }
            i += 1;
        }
        assert(self.store.edges@.take(i as int) =~= self.store.edges@);
        r
    }

    /// The identifiers at the positions.
    fn ids_at(&self, ps: &Vec<usize>) -> (r: Vec<NodeId>)
        requires
            in_range(self.node_seq().len() as int, as_ints(ps@)),
        ensures
            r@ == rename(self.node_ids(), as_ints(ps@)),
    {
        let mut r: Vec<NodeId> = Vec::new();
        let mut j: usize = 0;
        while j < ps.len()
            invariant
                in_range(self.store.nodes@.len() as int, as_ints(ps@)),
                j <= ps@.len(),
                r@.len() == j,
                forall|k: int| 0 <= k < j ==> r@[k] == self.store.nodes@[ps@[k] as int].id,
            decreases ps@.len() - j,
        {
            assert(0 <= as_ints(ps@)[j as int] < self.store.nodes@.len());
            r.push(self.store.nodes[ps[j]].id);
            j += 1;
        }
        assert(r@ =~= rename(self.node_ids(), as_ints(ps@)));
        r
    }

    /// Whether some walk of at least one edge ends where it began.
    pub fn is_cyclic(&self) -> (r: bool)
        requires
            self.wf(),
        ensures
            r == has_cycle(self.links()),
    {
        proof {
            self.lemma_links();
            lemma_cycle_relabel(self.node_ids(), topology_arcs(self.store.topology));
        }
        topology_is_cyclic(&self.store.topology)
    }

    /// Whether every node reaches every node when the direction of the
    /// edges is left aside. A graph without nodes is connected.
    pub fn is_connected(&self) -> (r: bool)
        requires
            self.wf(),
        ensures
            r == is_connected(self.links(), self.node_ids()),
    {
        let count = topology_component_count(&self.store.topology);
        proof {
            self.lemma_links();
            let arcs = topology_arcs(self.store.topology);
            let parts = choose|parts: Seq<Seq<int>>|
                #[trigger] parts.len() == count as nat && is_partition_by_reach(
                    crate::walks::both_ways(arcs),
                    crate::walks::all_positions(topology_nodes(self.store.topology)),
                    parts,
                );
            lemma_connected_by_parts(self.node_ids(), arcs, parts);
        }
        count <= 1
    }

    /// The number of classes into which the nodes fall when each is put with
    /// those that it reaches, the direction of the edges left aside.
    pub fn connected_component_count(&self) -> (r: usize)
        requires
            self.wf(),
        ensures
            class_count(crate::walks::both_ways(self.links()), self.node_ids(), r as nat),
    {
        let count = topology_component_count(&self.store.topology);
        proof {
            self.lemma_links();
            let arcs = topology_arcs(self.store.topology);
            let two = crate::walks::both_ways(arcs);
            let parts = choose|parts: Seq<Seq<int>>|
                #[trigger] parts.len() == count as nat && is_partition_by_reach(
                    two,
                    crate::walks::all_positions(topology_nodes(self.store.topology)),
                    parts,
                );
            crate::walks::lemma_both_ways_relabel(self.node_ids(), arcs);
            lemma_partition_rename(self.node_ids(), two, parts);
            let named = rename_all(self.node_ids(), parts);
            assert(named.len() == count as nat);
        }
        count
    }

    /// The targets of the edges that begin at the node, in the order of the
    /// edges; none for an unknown node.
    pub fn out_neighbors(&self, id: NodeId) -> (r: Vec<NodeId>)
        ensures
            r@ == self.links().filter(begins_at(id)).map_values(|l: (NodeId, NodeId)| l.1),
    {
        let ghost f = |l: (NodeId, NodeId)| l.1;
        let mut r: Vec<NodeId> = Vec::new();
        let mut k: usize = 0;
        while k < self.store.edges.len()
            invariant
                k <= self.store.edges@.len(),
                f == |l: (NodeId, NodeId)| l.1,
                r@ == self.links().take(k as int).filter(begins_at(id)).map_values(f),
            decreases self.store.edges@.len() - k,
        {
            proof {
                let links = self.links();
                assert(links.take(k as int + 1) =~= links.take(k as int).push(links[k as int]));
                links.take(k as int).lemma_filter_push(links[k as int], begins_at(id));
                assert(links.take(k as int).filter(begins_at(id)).push(links[k as int]).map_values(f)
                    =~= links.take(k as int).filter(begins_at(id)).map_values(f).push(
                    links[k as int].1,
                ));
            }
            if self.store.edges[k].source == id {
                r.push(self.store.edges[k].target);
            }
            k += 1;
        }
        assert(self.links().take(k as int) =~= self.links());
        r
    }

    /// The sources of the edges that end at the node, in the order of the
    /// edges; none for an unknown node.
    pub fn in_neighbors(&self, id: NodeId) -> (r: Vec<NodeId>)
        ensures
            r@ == self.links().filter(ends_at(id)).map_values(|l: (NodeId, NodeId)| l.0),
    {
        let ghost f = |l: (NodeId, NodeId)| l.0;
        let mut r: Vec<NodeId> = Vec::new();
        let mut k: usize = 0;
        while k < self.store.edges.len()
            invariant
                k <= self.store.edges@.len(),
                f == |l: (NodeId, NodeId)| l.0,
                r@ == self.links().take(k as int).filter(ends_at(id)).map_values(f),
            decreases self.store.edges@.len() - k,
        {
            proof {
                let links = self.links();
                assert(links.take(k as int + 1) =~= links.take(k as int).push(links[k as int]));
                links.take(k as int).lemma_filter_push(links[k as int], ends_at(id));
                assert(links.take(k as int).filter(ends_at(id)).push(links[k as int]).map_values(f)
                    =~= links.take(k as int).filter(ends_at(id)).map_values(f).push(
                    links[k as int].0,
                ));
            }
            if self.store.edges[k].target == id {
                r.push(self.store.edges[k].source);
            }
            k += 1;
        }
        assert(self.links().take(k as int) =~= self.links());
        r
    }

    /// The nodes next to the node: the targets of the edges that begin at
    /// it, then the sources of the edges that end at it.
    pub fn neighbors(&self, id: NodeId) -> (r: Vec<NodeId>)
        ensures
            r@ == self.links().filter(begins_at(id)).map_values(|l: (NodeId, NodeId)| l.1)
                + self.links().filter(ends_at(id)).map_values(|l: (NodeId, NodeId)| l.0),
    {
        let mut r = self.out_neighbors(id);
        let mut into = self.in_neighbors(id);
        r.append(&mut into);
        r
    }

    /// Registers a rule, to be checked after those registered before it.
    pub fn add_invariant(&mut self, rule: InvariantBox<N, E>)
        ensures
            final(self).invariants@ == old(self).invariants@.push(rule),
            final(self).node_seq() == old(self).node_seq(),
            final(self).edge_seq() == old(self).edge_seq(),
            final(self).id == old(self).id,
            final(self).metadata == old(self).metadata,
            old(self).wf() ==> final(self).wf(),
    {
        let ghost before = *self;
        self.invariants.push(rule);
        proof {
            if before.wf() {
                assert(self.node_ids() =~= before.node_ids());
                assert(self.edge_ids() =~= before.edge_ids());
            }
        }
    }

    /// As `is_cyclic`.
    pub fn has_cycles(&self) -> (r: bool)
        requires
            self.wf(),
        ensures
            r == has_cycle(self.links()),
    {
        self.is_cyclic()
    }

    /// All nodes in an order in which every edge leads from an earlier node
    /// to a later one; `CycleDetected` exactly where the graph has a cycle.
    pub fn topological_sort(&self) -> (r: Result<Vec<NodeId>, GraphError>)
        requires
            self.wf(),
        ensures
            r is Err <==> has_cycle(self.links()),
            r matches Err(e) ==> e is CycleDetected,
            r matches Ok(order) ==> lists_each_once(self.node_ids(), order@) && respects_links(
                self.links(),
                order@,
            ),
    {
        proof {
            self.lemma_links();
            lemma_cycle_relabel(self.node_ids(), topology_arcs(self.store.topology));
        }
        match topology_sort(&self.store.topology) {
            Some(order) => {
                proof {
                    lemma_order_rename(
                        self.node_ids(),
                        topology_arcs(self.store.topology),
                        as_ints(order@),
                    );
                }
                Ok(self.ids_at(&order))
            },
            None => Err(GraphError::CycleDetected),
        }
    }

    /// The parts as sequences of identifiers.
    pub open spec fn part_seqs(parts: Seq<Vec<NodeId>>) -> Seq<Seq<NodeId>> {
        Seq::new(parts.len(), |k: int| parts[k]@)
    }

    /// The strongly connected components: every node is in one of them, and
    /// two nodes are in the same exactly when each reaches the other.
    pub fn strongly_connected_components(&self) -> (r: Vec<Vec<NodeId>>)
        requires
            self.wf(),
        ensures
            is_partition_by_reach(self.links(), self.node_ids(), Self::part_seqs(r@)),
    {
        let parts = topology_components(&self.store.topology);
        proof {
            self.lemma_links();
            lemma_partition_rename(
                self.node_ids(),
                topology_arcs(self.store.topology),
                as_int_seqs(parts@),
            );
        }
        let mut r: Vec<Vec<NodeId>> = Vec::new();
        let mut k: usize = 0;
        while k < parts.len()
            invariant
                k <= parts@.len(),
                r@.len() == k,
                forall|j: int|
                    0 <= j < parts@.len() ==> in_range(
                        self.node_seq().len() as int,
                        #[trigger] as_int_seqs(parts@)[j],
                    ),
                forall|j: int|
                    0 <= j < k ==> (#[trigger] r@[j])@ == rename(self.node_ids(), as_ints(parts@[j]@)),
            decreases parts@.len() - k,
        {
            assert(in_range(self.node_seq().len() as int, as_int_seqs(parts@)[k as int]));
            let part = self.ids_at(&parts[k]);
            r.push(part);
            k += 1;
        }
        assert(Self::part_seqs(r@) =~= rename_all(self.node_ids(), as_int_seqs(parts@)));
        r
    }

    /// A walk of the fewest edges from `start` to `end`, or `None` where
    /// `end` cannot be reached or one of the two is no node of the graph.
    pub fn shortest_path(&self, start: NodeId, end: NodeId) -> (r: Option<Vec<NodeId>>)
        requires
            self.wf(),
        ensures
            r is Some <==> self.contains_node(start) && self.contains_node(end) && reachable(
                self.links(),
                start,
                end,
            ),
            r matches Some(p) ==> is_shortest_walk(self.links(), p@) && p@[0] == start && p@.last()
                == end,
    {
        let a = match self.get_node_index(start) {
            Some(i) => i,
            None => {
                return None;
            },
        };
        let b = match self.get_node_index(end) {
            Some(i) => i,
            None => {
                return None;
            },
        };
        proof {
            self.lemma_links();
            assert(self.node_ids()[a as int] == start);
            assert(self.node_ids()[b as int] == end);
            lemma_reach_relabel(
                self.node_ids(),
                topology_arcs(self.store.topology),
                a as int,
                b as int,
            );
        }
        match topology_shortest(&self.store.topology, a, b) {
            Some(p) => {
                proof {
                    let arcs = topology_arcs(self.store.topology);
                    assert(as_ints(p@)[0] == a);
                    lemma_walk_in_range(self.node_seq().len() as int, arcs, as_ints(p@));
                    lemma_shortest_rename(self.node_ids(), arcs, as_ints(p@));
                }
                let path = self.ids_at(&p);
                Some(path)
            },
            None => None,
        }
    }

    /// The paths as sequences of identifiers.
    pub open spec fn path_seqs(paths: Seq<Vec<NodeId>>) -> Seq<Seq<NodeId>> {
        Seq::new(paths.len(), |k: int| paths[k]@)
    }

    /// Every simple path from `start` to `end` of at most `max_length`
    /// edges, in no particular order.
    pub fn all_simple_paths(&self, start: NodeId, end: NodeId, max_length: usize) -> (r: Vec<
        Vec<NodeId>,
    >)
        requires
            self.wf(),
        ensures
            forall|k: int|
                0 <= k < r@.len() ==> is_simple_path(
                    self.links(),
                    start,
                    end,
                    #[trigger] Self::path_seqs(r@)[k],
                ) && Self::path_seqs(r@)[k].len() <= max_length + 1,
            forall|p: Seq<NodeId>|
                #![trigger is_simple_path(self.links(), start, end, p)]
                is_simple_path(self.links(), start, end, p) && p.len() <= max_length + 1
                    ==> Self::path_seqs(r@).contains(p),
            self.links().no_duplicates() ==> Self::path_seqs(r@).no_duplicates(),
    {
        let ghost ids = self.node_ids();
        let ghost arcs = topology_arcs(self.store.topology);
        proof {
            self.lemma_links();
            assert forall|p: Seq<NodeId>| is_simple_path(self.links(), start, end, p) implies ids.contains(
                start,
            ) && ids.contains(end) by {
                lemma_simple_path_positions(ids, arcs, start, end, p);
            }
        }
        let mut r: Vec<Vec<NodeId>> = Vec::new();
        if max_length == 0 {
            return r;
        }
        let a = match self.get_node_index(start) {
            Some(i) => i,
            None => {
                return r;
            },
        };
        let b = match self.get_node_index(end) {
            Some(i) => i,
            None => {
                return r;
            },
        };
        proof {
            assert(ids[a as int] == start);
            assert(ids[b as int] == end);
        }
        let found = topology_simple_paths(&self.store.topology, a, b, max_length - 1);
        let mut k: usize = 0;
        proof {
            assert forall|j: int| 0 <= j < found@.len() implies in_range(
                ids.len() as int,
                #[trigger] as_int_seqs(found@)[j],
            ) by {
                lemma_simple_path_rename(ids, arcs, a as int, b as int, as_int_seqs(found@)[j]);
            }
        }
        while k < found.len()
            invariant
                ids == self.node_ids(),
                k <= found@.len(),
                r@.len() == k,
                forall|j: int|
                    0 <= j < found@.len() ==> in_range(
                        self.node_seq().len() as int,
                        #[trigger] as_int_seqs(found@)[j],
                    ),
                forall|j: int| 0 <= j < k ==> (#[trigger] r@[j])@ == rename(ids, as_ints(found@[j]@)),
            decreases found@.len() - k,
        {
            assert(in_range(self.node_seq().len() as int, as_int_seqs(found@)[k as int]));
            let path = self.ids_at(&found[k]);
            r.push(path);
            k += 1;
        }
        proof {
            let out = Self::path_seqs(r@);
            let raw = as_int_seqs(found@);
            assert forall|j: int| 0 <= j < r@.len() implies is_simple_path(
                self.links(),
                start,
                end,
                #[trigger] out[j],
            ) && out[j].len() <= max_length + 1 by {
                assert(is_simple_path(arcs, a as int, b as int, raw[j]));
                lemma_simple_path_rename(ids, arcs, a as int, b as int, raw[j]);
                assert(out[j] == rename(ids, raw[j]));
            }
            assert forall|p: Seq<NodeId>|
                #![trigger is_simple_path(self.links(), start, end, p)]
                is_simple_path(self.links(), start, end, p) && p.len() <= max_length + 1 implies out.contains(
                p,
            ) by {
                lemma_simple_path_positions(ids, arcs, start, end, p);
                let q = positions(ids, p);
                assert(ids.index_of(start) == a) by {
                    assert(ids[a as int] == start);
                }
                assert(ids.index_of(end) == b) by {
                    assert(ids[b as int] == end);
                }
                assert(is_simple_path(arcs, a as int, b as int, q));
                assert(raw.contains(q));
                let j = choose|j: int| 0 <= j < raw.len() && raw[j] == q;
                assert(out[j] == rename(ids, raw[j]));
                assert(out[j] == p);
            }
            if self.links().no_duplicates() {
                assert forall|i: int, j: int| 0 <= i < arcs.len() && 0 <= j < arcs.len() && i != j implies arcs[i]
                    != arcs[j] by {
                    if arcs[i] == arcs[j] {
                        assert(self.links()[i] == self.links()[j]);
                    }
                }
                assert(raw.no_duplicates());
                assert forall|i: int, j: int| 0 <= i < out.len() && 0 <= j < out.len() && i != j implies out[i]
                    != out[j] by {
                    assert(out[i] == rename(ids, raw[i]));
                    assert(out[j] == rename(ids, raw[j]));
                    if out[i] == out[j] {
                        assert(in_range(ids.len() as int, raw[i]));
                        assert(in_range(ids.len() as int, raw[j]));
                        assert(raw[i].len() == raw[j].len());
                        assert forall|t: int| 0 <= t < raw[i].len() implies raw[i][t] == raw[j][t] by {
                            assert(out[i][t] == ids[raw[i][t]]);
                            assert(out[j][t] == ids[raw[j][t]]);
                        }
                        assert(raw[i] =~= raw[j]);
                    }
                }
            }
        }
        r
    }

    /// Every simple path from `start` to `end` of at most ten edges.
    pub fn find_paths(&self, start: NodeId, end: NodeId) -> (r: Vec<Vec<NodeId>>)
        requires
            self.wf(),
        ensures
            forall|k: int|
                0 <= k < r@.len() ==> is_simple_path(
                    self.links(),
                    start,
                    end,
                    #[trigger] Self::path_seqs(r@)[k],
                ) && Self::path_seqs(r@)[k].len() <= 11,
            forall|p: Seq<NodeId>|
                #![trigger is_simple_path(self.links(), start, end, p)]
                is_simple_path(self.links(), start, end, p) && p.len() <= 11 ==> Self::path_seqs(
                    r@,
                ).contains(p),
            self.links().no_duplicates() ==> Self::path_seqs(r@).no_duplicates(),
    {
        self.all_simple_paths(start, end, 10)
    }

    /// Whether some walk leads from `start` to `end`, both nodes of the
    /// graph.
    pub fn has_path(&self, start: NodeId, end: NodeId) -> (r: bool)
        requires
            self.wf(),
        ensures
            r == (self.contains_node(start) && self.contains_node(end) && reachable(
                self.links(),
                start,
                end,
            )),
    {
        self.shortest_path(start, end).is_some()
    }

    /// The nodes, in the order in which the graph holds them.
    pub fn node_entries(&self) -> (r: &Vec<NodeEntry<N>>)
        ensures
            r@ == self.node_seq(),
    {
        &self.store.nodes
    }

    /// The edges, in the order in which the graph holds them.
    pub fn edge_entries(&self) -> (r: &Vec<EdgeEntry<E>>)
        ensures
            r@ == self.edge_seq(),
    {
        &self.store.edges
    }
}

impl<N: Clone, E: Clone> ContextGraph<N, E> {
    /// `self` is a copy of `other`: node for node and edge for edge the same
    /// identifiers, ends and components, with copies of the values.
    pub open spec fn copy_of(&self, other: &Self) -> bool {
        &&& self.id == other.id
        &&& self.invariants@ == other.invariants@
        &&& self.node_seq().len() == other.node_seq().len()
        &&& self.edge_seq().len() == other.edge_seq().len()
        &&& forall|i: int|
            0 <= i < self.node_seq().len() ==> (#[trigger] self.node_seq()[i]).id
                == other.node_seq()[i].id && self.node_seq()[i].components@
                == other.node_seq()[i].components@ && cloned(
                other.node_seq()[i].value,
                self.node_seq()[i].value,
            )
        &&& forall|i: int|
            0 <= i < self.edge_seq().len() ==> (#[trigger] self.edge_seq()[i]).id
                == other.edge_seq()[i].id && self.edge_seq()[i].source == other.edge_seq()[i].source
                && self.edge_seq()[i].target == other.edge_seq()[i].target
                && self.edge_seq()[i].components@ == other.edge_seq()[i].components@ && cloned(
                other.edge_seq()[i].value,
                self.edge_seq()[i].value,
            )
    }
}

impl<N: Clone, E: Clone> Clone for ContextGraph<N, E> {
    fn clone(&self) -> (r: Self)
        ensures
            r.copy_of(self),
            self.wf() ==> r.wf(),
    {
        let mut nodes: Vec<NodeEntry<N>> = Vec::new();
        let mut i: usize = 0;
        while i < self.store.nodes.len()
            invariant
                i <= self.store.nodes@.len(),
                nodes@.len() == i,
                forall|j: int|
                    0 <= j < i ==> (#[trigger] nodes@[j]).id == self.store.nodes@[j].id
                        && nodes@[j].components@ == self.store.nodes@[j].components@ && cloned(
                        self.store.nodes@[j].value,
                        nodes@[j].value,
                    ),
            decreases self.store.nodes@.len() - i,
        {
            nodes.push(self.store.nodes[i].clone());
            i += 1;
        }
        let mut edges: Vec<EdgeEntry<E>> = Vec::new();
        let mut k: usize = 0;
        while k < self.store.edges.len()
            invariant
                k <= self.store.edges@.len(),
                edges@.len() == k,
                forall|j: int|
                    0 <= j < k ==> (#[trigger] edges@[j]).id == self.store.edges@[j].id
                        && edges@[j].source == self.store.edges@[j].source && edges@[j].target
                        == self.store.edges@[j].target && edges@[j].components@
                        == self.store.edges@[j].components@ && cloned(
                        self.store.edges@[j].value,
                        edges@[j].value,
                    ),
            decreases self.store.edges@.len() - k,
        {
            edges.push(self.store.edges[k].clone());
            k += 1;
        }
        let mut invariants: Vec<InvariantBox<N, E>> = Vec::new();
        let mut m: usize = 0;
        while m < self.invariants.len()
            invariant
                m <= self.invariants@.len(),
                invariants@.len() == m,
                forall|j: int| 0 <= j < m ==> invariants@[j] == self.invariants@[j],
            decreases self.invariants@.len() - m,
        {
            invariants.push(self.invariants[m].clone());
            m += 1;
        }
        let r = ContextGraph {
            id: self.id,
            metadata: self.metadata.clone(),
            invariants,
            store: GraphStore {
                topology: topology_clone(&self.store.topology),
                nodes,
                edges,
                node_at: self.store.node_at.clone(),
                edge_at: self.store.edge_at.clone(),
            },
        };
        proof {
            assert(r.invariants@ =~= self.invariants@);
            if self.wf() {
                assert(r.node_ids() =~= self.node_ids());
                assert(r.edge_ids() =~= self.edge_ids());
                assert(r.node_nums() =~= self.node_nums());
                assert(r.edge_nums() =~= self.edge_nums());
                assert(r.synced());
                r.lemma_links();
            }
        }
        r
    }
}

/// After a node was removed it is not found again, and no edge begins or
/// ends at it.
pub proof fn lemma_removed_node_is_gone<N, E>(
    before: ContextGraph<N, E>,
    after: ContextGraph<N, E>,
    id: NodeId,
    removed: Option<NodeEntry<N>>,
    found: Option<&NodeEntry<N>>,
)
    requires
        before.wf(),
        before.node_removed(&after, id, removed),
        after.node_found(id, found),
    ensures
        !after.contains_node(id),
        found is None,
        forall|k: int|
            0 <= k < after.edge_seq().len() ==> (#[trigger] after.edge_seq()[k]).source != id
                && after.edge_seq()[k].target != id,
{
    if before.contains_node(id) {
        let i = before.node_ids().index_of(id);
        assert(before.node_ids()[i] == id);
        assert(after.node_ids() =~= swap_removed(before.node_ids(), i));
        lemma_swap_removed_no_duplicates(before.node_ids(), i);
        assert forall|k: int| 0 <= k < after.edge_seq().len() implies (
        #[trigger] after.edge_seq()[k]).source != id && after.edge_seq()[k].target != id by {
            assert(after.edge_seq().contains(after.edge_seq()[k]));
        }
    } else {
        assert(after.node_ids() =~= before.node_ids());
        assert forall|k: int| 0 <= k < after.edge_seq().len() implies (
        #[trigger] after.edge_seq()[k]).source != id && after.edge_seq()[k].target != id by {
            assert(before.contains_node(before.edge_seq()[k].source));
            assert(before.contains_node(before.edge_seq()[k].target));
        }
    }
}

/// After an edge was added, or refused, both ends of every edge are nodes
/// of the graph.
pub proof fn lemma_no_dangling_edge<N, E>(
    before: ContextGraph<N, E>,
    after: ContextGraph<N, E>,
    source: NodeId,
    target: NodeId,
    value: E,
    r: GraphResult<EdgeId>,
)
    requires
        before.wf(),
        after.node_seq() == before.node_seq(),
        before.added_edge(&after, source, target, value, r),
    ensures
        forall|k: int|
            0 <= k < after.edge_seq().len() ==> after.contains_node(
                (#[trigger] after.edge_seq()[k]).source,
            ) && after.contains_node(after.edge_seq()[k].target),
{
    assert(after.node_ids() =~= before.node_ids());
    assert forall|k: int| 0 <= k < after.edge_seq().len() implies after.contains_node(
        (#[trigger] after.edge_seq()[k]).source,
    ) && after.contains_node(after.edge_seq()[k].target) by {
        if k < before.edge_seq().len() {
            if r is Ok {
                assert(after.edge_seq().drop_last()[k] == before.edge_seq()[k]);
            }
            assert(before.contains_node(before.edge_seq()[k].source));
            assert(before.contains_node(before.edge_seq()[k].target));
        }
    }
}

/// Removing a node a second time changes nothing and hands out nothing.
pub proof fn lemma_remove_node_twice<N, E>(
    before: ContextGraph<N, E>,
    between: ContextGraph<N, E>,
    after: ContextGraph<N, E>,
    id: NodeId,
    first: Option<NodeEntry<N>>,
    second: Option<NodeEntry<N>>,
)
    requires
        before.wf(),
        before.node_removed(&between, id, first),
        between.node_removed(&after, id, second),
    ensures
        second is None,
        after.node_seq() == between.node_seq(),
        after.edge_seq() == between.edge_seq(),
{
    if before.contains_node(id) {
        let i = before.node_ids().index_of(id);
        assert(before.node_ids()[i] == id);
        assert(between.node_ids() =~= swap_removed(before.node_ids(), i));
        lemma_swap_removed_no_duplicates(before.node_ids(), i);
    } else {
        assert(between.node_ids() =~= before.node_ids());
    }
}

/// Removing an edge a second time changes nothing and hands out nothing.
pub proof fn lemma_remove_edge_twice<N, E>(
    before: ContextGraph<N, E>,
    between: ContextGraph<N, E>,
    after: ContextGraph<N, E>,
    id: EdgeId,
    first: Option<EdgeEntry<E>>,
    second: Option<EdgeEntry<E>>,
)
    requires
        before.wf(),
        before.edge_removed(&between, id, first),
        between.edge_removed(&after, id, second),
    ensures
        second is None,
        after.edge_seq() == between.edge_seq(),
{
    if before.contains_edge(id) {
        let i = before.edge_ids().index_of(id);
        assert(before.edge_ids()[i] == id);
        assert(between.edge_ids() =~= swap_removed(before.edge_ids(), i));
        lemma_swap_removed_no_duplicates(before.edge_ids(), i);
    } else {
        assert(between.edge_ids() =~= before.edge_ids());
    }
}

} // verus!
