//! A content-addressed acyclic graph, for chains of events and stores of
//! objects.
//!
//! Nodes are known by their content identifiers. Edges are causal (from an
//! earlier node to the next), references, merges or forks. No edge closes a
//! cycle.

use vstd::prelude::*;

use crate::component::boxed;
use crate::component::type_key;
use crate::component::Component;
use crate::context_graph::ContextGraph;
use crate::dag_shape::dag_add_arc;
use crate::dag_shape::dag_add_node;
use crate::dag_shape::dag_arc_ends;
use crate::dag_shape::dag_arcs;
use crate::dag_shape::dag_children;
use crate::dag_shape::dag_clone;
use crate::dag_shape::dag_new;
use crate::dag_shape::dag_nodes;
use crate::dag_shape::dag_parents;
use crate::dag_shape::DagShape;
use crate::types::ContentId;
use crate::types::GraphError;
use crate::types::NodeEntry;
use crate::types::NodeId;
use crate::walks::arcs_in_range;
use crate::walks::flip;
use crate::walks::has_cycle;
use crate::walks::in_range;
use crate::walks::is_walk;
use crate::walks::lemma_acyclic_walk_distinct;
use crate::walks::lemma_distinct_in_range;
use crate::walks::lemma_far_ends;
use crate::walks::lemma_walk_push;
use crate::walks::lemma_far_relabel;
use crate::walks::lemma_push_keeps_acyclic;
use crate::walks::lemma_reach_far;
use crate::walks::lemma_reach_flip;
use crate::walks::lemma_reach_relabel;
use crate::walks::lemma_reach_step;
use crate::walks::lemma_closed_holds_reach;
use crate::walks::reachable;
use crate::walks::reaches_far;
use crate::walks::relabel;
use crate::walks::rename;

verus! {

/// What an edge of the graph stands for.
#[derive(Debug, Clone, Copy, PartialEq, Eq, Structural)]
pub enum CidEdgeType {
    /// From a node to the one that follows it.
    Causal,
    /// From a node to content that it refers to.
    Reference,
    /// Where chains come together.
    Merge,
    /// Where a chain parts.
    Fork,
}

/// A node of the graph: its identifier, its content and when it was made.
#[derive(Debug)]
pub struct CidNode<T> {
    pub cid: ContentId,
    pub content: T,
    pub timestamp: u64,
    pub metadata: Vec<(String, String)>,
}

/// A copy of the pairs of texts.
fn copy_pairs(pairs: &Vec<(String, String)>) -> (r: Vec<(String, String)>)
    ensures
        r@ == pairs@,
{
    let mut r: Vec<(String, String)> = Vec::new();
    let mut i: usize = 0;
    while i < pairs.len()
        invariant
            i <= pairs@.len(),
            r@ == pairs@.take(i as int),
        decreases pairs@.len() - i,
    {
        let key = pairs[i].0.clone();
        let value = pairs[i].1.clone();
        r.push((key, value));
        assert(r@ =~= pairs@.take(i + 1));
        i += 1;
    }
    assert(pairs@.take(i as int) =~= pairs@);
    r
}

impl<T: Clone> Clone for CidNode<T> {
    fn clone(&self) -> (r: Self)
        ensures
            r.cid@ == self.cid@,
            r.timestamp == self.timestamp,
            cloned(self.content, r.content),
            r.metadata@ == self.metadata@,
    {
        CidNode {
            cid: self.cid.clone(),
            content: self.content.clone(),
            timestamp: self.timestamp,
            metadata: copy_pairs(&self.metadata),
        }
    }
}

/// An edge of the graph.
#[derive(Debug)]
pub struct CidEdge {
    pub edge_type: CidEdgeType,
    pub metadata: Vec<(String, String)>,
}

impl Clone for CidEdge {
    fn clone(&self) -> (r: Self)
        ensures
            r.edge_type == self.edge_type,
            r.metadata@ == self.metadata@,
    {
        CidEdge { edge_type: self.edge_type, metadata: copy_pairs(&self.metadata) }
    }
}

/// An event of a chain of events.
#[derive(Debug, Clone)]
pub struct EventNode {
    pub event_id: String,
    pub aggregate_id: String,
    pub event_type: String,
    pub sequence: u64,
    pub payload_cid: Option<ContentId>,
}

/// An object of a store of objects, whole or in chunks.
#[derive(Debug, Clone)]
pub struct ObjectNode {
    pub object_type: String,
    pub size: u64,
    pub mime_type: Option<String>,
    pub chunks: Vec<ContentId>,
}

/// A graph of events.
pub type EventDag = CidDag<EventNode>;

/// A graph of objects.
pub type ObjectDag = CidDag<ObjectNode>;

/// A content identifier, as a component.
#[derive(Debug, Clone)]
pub struct CidReference(pub ContentId);

impl Component for CidReference {
    open spec fn spec_name(&self) -> Seq<char> {
        "CidReference"@
    }

    fn component_name(&self) -> (r: &'static str) {
        "CidReference"
    }
}

/// A content-addressed acyclic graph with contents of type `T`.
pub struct CidDag<T> {
    shape: DagShape,
    nodes: Vec<CidNode<T>>,
    edges: Vec<CidEdge>,
    roots: Vec<ContentId>,
    leaves: Vec<ContentId>,
}

/// The identifiers as sequences of bytes.
pub open spec fn views(s: Seq<ContentId>) -> Seq<Seq<u8>> {
    Seq::new(s.len(), |i: int| s[i]@)
}

/// The sequence without `c`, where it has no duplicates.
pub open spec fn dropped(s: Seq<Seq<u8>>, c: Seq<u8>) -> Seq<Seq<u8>> {
    if s.contains(c) {
        s.remove(s.index_of(c))
    } else {
        s
    }
}

/// The arcs as they are, or each turned around.
pub open spec fn directed(arcs: Seq<(int, int)>, forward: bool) -> Seq<(int, int)> {
    if forward {
        arcs
    } else {
        flip(arcs)
    }
}

/// Every arc out of `w` leads to a position that is marked in `seen`.
pub open spec fn closed_at(links: Seq<(int, int)>, seen: Seq<bool>, w: int) -> bool {
    forall|u: int| #[trigger] links.contains((w, u)) ==> 0 <= u < seen.len() && seen[u]
}

/// The position of `c` in `v`.
fn find_cid(v: &Vec<ContentId>, c: &ContentId) -> (r: Option<usize>)
    ensures
        match r {
            Some(i) => i < v@.len() && v@[i as int]@ == c@,
            None => !views(v@).contains(c@),
        },
{
    let mut i: usize = 0;
    while i < v.len()
        invariant
            i <= v@.len(),
            forall|j: int| 0 <= j < i ==> v@[j]@ != c@,
        decreases v@.len() - i,
    {
        if v[i].same(c) {
            return Some(i);
        }
        i += 1;
    }
    proof {
        if views(v@).contains(c@) {
            let j = choose|j: int| 0 <= j < views(v@).len() && views(v@)[j] == c@;
            assert(v@[j]@ == c@);
        }
    }
    None
}

/// Takes `c` out of `v`, which has no duplicates.
fn drop_cid(v: &mut Vec<ContentId>, c: &ContentId)
    requires
        views(old(v)@).no_duplicates(),
    ensures
        views(final(v)@) == dropped(views(old(v)@), c@),
        views(final(v)@).no_duplicates(),
        forall|x: Seq<u8>| views(final(v)@).contains(x) <==> views(old(v)@).contains(x) && x != c@,
{
    let ghost before = views(v@);
    match find_cid(v, c) {
        Some(i) => {
            v.remove(i);
            proof {
                let after = views(v@);
                assert(before[i as int] == c@);
                assert(before.index_of(c@) == i);
                assert(after =~= before.remove(i as int));
                assert forall|a: int, b: int|
                    0 <= a < after.len() && 0 <= b < after.len() && a != b implies after[a]
                    != after[b] by {
                    let a0 = if a < i { a } else { a + 1 };
                    let b0 = if b < i { b } else { b + 1 };
                    assert(after[a] == before[a0]);
                    assert(after[b] == before[b0]);
                }
                assert forall|x: Seq<u8>| after.contains(x) <==> before.contains(x) && x != c@ by {
                    if after.contains(x) {
                        let j = choose|j: int| 0 <= j < after.len() && after[j] == x;
                        let j0 = if j < i { j } else { j + 1 };
                        assert(before[j0] == x);
                    }
                    if before.contains(x) && x != c@ {
                        let j0 = choose|j0: int| 0 <= j0 < before.len() && before[j0] == x;
                        let j = if j0 < i { j0 } else { j0 - 1 };
                        assert(after[j] == x);
                    }
                }
            }
        },
        None => {},
    }
}

impl<T> CidDag<T> {
    /// The nodes, in the order in which they were added.
    pub closed spec fn node_seq(&self) -> Seq<CidNode<T>> {
        self.nodes@
    }

    /// The edges, in the order in which they were added.
    pub closed spec fn edge_seq(&self) -> Seq<CidEdge> {
        self.edges@
    }

    /// The ends of the edges, each the positions of its source and of its
    /// target among the nodes.
    pub closed spec fn arcs(&self) -> Seq<(int, int)> {
        dag_arcs(self.shape)
    }

    /// The identifiers of the nodes without a causal edge into them, in the
    /// order in which the nodes were added.
    pub closed spec fn root_seq(&self) -> Seq<Seq<u8>> {
        views(self.roots@)
    }

    /// The identifiers of the nodes without a causal edge out of them, in
    /// the order in which the nodes were added.
    pub closed spec fn leaf_seq(&self) -> Seq<Seq<u8>> {
        views(self.leaves@)
    }

    /// The shape kept for walking the graph has as many nodes as the graph.
    pub closed spec fn synced(&self) -> bool {
        dag_nodes(self.shape) == self.nodes@.len()
    }

    /// The identifiers of the nodes.
    pub open spec fn cids(&self) -> Seq<Seq<u8>> {
        Seq::new(self.node_seq().len(), |i: int| self.node_seq()[i].cid@)
    }

    /// The links of the graph: for each edge the identifiers of its source
    /// and of its target.
    pub open spec fn links(&self) -> Seq<(Seq<u8>, Seq<u8>)> {
        relabel(self.cids(), self.arcs())
    }

    /// Whether a node has the identifier.
    pub open spec fn contains(&self, cid: Seq<u8>) -> bool {
        self.cids().contains(cid)
    }

    /// The node with the identifier.
    pub open spec fn node(&self, cid: Seq<u8>) -> CidNode<T> {
        self.node_seq()[self.cids().index_of(cid)]
    }

    /// The edge at position `e` is causal and enters the node at position
    /// `v`.
    pub open spec fn causal_into(&self, e: int, v: int) -> bool {
        &&& 0 <= e < self.arcs().len()
        &&& self.arcs()[e].1 == v
        &&& self.edge_seq()[e].edge_type is Causal
    }

    /// The edge at position `e` is causal and leaves the node at position
    /// `v`.
    pub open spec fn causal_out_of(&self, e: int, v: int) -> bool {
        &&& 0 <= e < self.arcs().len()
        &&& self.arcs()[e].0 == v
        &&& self.edge_seq()[e].edge_type is Causal
    }

    /// The graph is well formed: no two nodes share an identifier, every
    /// edge joins two nodes, no walk ends where it began, and the roots and
    /// the leaves are the nodes without a causal edge into them and out of
    /// them.
    pub open spec fn wf(&self) -> bool {
        &&& self.synced()
        &&& self.arcs().len() == self.edge_seq().len()
        &&& arcs_in_range(self.node_seq().len() as int, self.arcs())
        &&& self.cids().no_duplicates()
        &&& !has_cycle(self.arcs())
        &&& self.root_seq().no_duplicates()
        &&& self.leaf_seq().no_duplicates()
        &&& forall|c: Seq<u8>| #[trigger] self.root_seq().contains(c) <==> self.is_root(c)
        &&& forall|c: Seq<u8>| #[trigger] self.leaf_seq().contains(c) <==> self.is_leaf(c)
    }

    /// Some causal edge enters the node at position `v`.
    pub open spec fn has_causal_parent(&self, v: int) -> bool {
        exists|e: int| self.causal_into(e, v)
    }

    /// Some causal edge leaves the node at position `v`.
    pub open spec fn has_causal_child(&self, v: int) -> bool {
        exists|e: int| self.causal_out_of(e, v)
    }

    /// `c` is a node that no causal edge enters.
    pub open spec fn is_root(&self, c: Seq<u8>) -> bool {
        self.contains(c) && !self.has_causal_parent(self.cids().index_of(c))
    }

    /// `c` is a node that no causal edge leaves.
    pub open spec fn is_leaf(&self, c: Seq<u8>) -> bool {
        self.contains(c) && !self.has_causal_child(self.cids().index_of(c))
    }

    /// An empty graph.
    pub fn new() -> (g: Self)
        ensures
            g.wf(),
            g.node_seq().len() == 0,
            g.edge_seq().len() == 0,
            g.root_seq().len() == 0,
            g.leaf_seq().len() == 0,
    {
        let g = CidDag {
            shape: dag_new(),
            nodes: Vec::new(),
            edges: Vec::new(),
            roots: Vec::new(),
            leaves: Vec::new(),
        };
        proof {
            assert(g.cids() =~= Seq::<Seq<u8>>::empty());
            assert(!has_cycle(g.arcs())) by {
                if has_cycle(g.arcs()) {
                    let p = choose|p: Seq<int>|
                        crate::walks::is_walk(g.arcs(), p) && p.len() >= 2 && p[0] == p.last();
                    assert(g.arcs().contains(crate::walks::pair_at(p, 0)));
                }
            }
        }
        g
    }

    /// The position of the node with the identifier.
    fn position(&self, cid: &ContentId) -> (r: Option<usize>)
        ensures
            match r {
                Some(i) => i < self.node_seq().len() && self.node_seq()[i as int].cid@ == cid@
                    && self.contains(cid@) && (self.cids().no_duplicates() ==> self.cids().index_of(
                    cid@,
                ) == i),
                None => !self.contains(cid@),
            },
    {
        let mut i: usize = 0;
        while i < self.nodes.len()
            invariant
                i <= self.nodes@.len(),
                forall|j: int| 0 <= j < i ==> self.nodes@[j].cid@ != cid@,
            decreases self.nodes@.len() - i,
        {
            if self.nodes[i].cid.same(cid) {
                proof {
                    assert(self.cids()[i as int] == cid@);
                }
                return Some(i);
            }
            i += 1;
        }
        proof {
            if self.contains(cid@) {
                let j = choose|j: int| 0 <= j < self.cids().len() && self.cids()[j] == cid@;
                assert(self.nodes@[j].cid@ == cid@);
            }
        }
        None
    }

    /// The node with the identifier.
    pub fn get_node(&self, cid: &ContentId) -> (r: Option<&CidNode<T>>)
        requires
            self.wf(),
        ensures
            r == if self.contains(cid@) {
                Some(&self.node(cid@))
            } else {
                None
            },
    {
        match self.position(cid) {
            Some(i) => Some(&self.nodes[i]),
            None => None,
        }
    }

    /// The number of nodes.
    pub fn node_count(&self) -> (r: usize)
        ensures
            r == self.node_seq().len(),
    {
        self.nodes.len()
    }

    /// The number of edges.
    pub fn edge_count(&self) -> (r: usize)
        ensures
            r == self.edge_seq().len(),
    {
        self.edges.len()
    }

    /// The identifiers of the nodes without a causal edge out of them.
    pub fn latest_cids(&self) -> (r: &Vec<ContentId>)
        ensures
            views(r@) == self.leaf_seq(),
    {
        &self.leaves
    }

    /// The identifiers of the nodes without a causal edge into them.
    pub fn root_cids(&self) -> (r: &Vec<ContentId>)
        ensures
            views(r@) == self.root_seq(),
    {
        &self.roots
    }

    /// What adding a node makes of `self`: an error and no change where a
    /// node has the identifier already; else the node added as the last, and
    /// its identifier added to the roots and to the leaves.
    pub open spec fn added_node(
        &self,
        after: &Self,
        cid: Seq<u8>,
        content: T,
        timestamp: u64,
        r: Result<(), GraphError>,
    ) -> bool {
        if self.contains(cid) {
            &&& r is Err
            &&& r->Err_0 is DuplicateCid
            &&& r->Err_0->DuplicateCid_0@ == cid
            &&& after.node_seq() == self.node_seq()
            &&& after.root_seq() == self.root_seq()
            &&& after.leaf_seq() == self.leaf_seq()
        } else {
            &&& r is Ok
            &&& after.node_seq().len() == self.node_seq().len() + 1
            &&& after.node_seq().drop_last() == self.node_seq()
            &&& after.node_seq().last().cid@ == cid
            &&& after.node_seq().last().content == content
            &&& after.node_seq().last().timestamp == timestamp
            &&& after.node_seq().last().metadata@.len() == 0
            &&& after.root_seq() == self.root_seq().push(cid)
            &&& after.leaf_seq() == self.leaf_seq().push(cid)
        }
    }

    /// Adds a node, which is a root and a leaf until a causal edge says
    /// otherwise. An identifier that a node has already is refused, and
    /// nothing changes.
    pub fn add_node(&mut self, cid: ContentId, content: T, timestamp: u64) -> (r: Result<
        (),
        GraphError,
    >)
        requires
            old(self).wf(),
        ensures
            final(self).wf(),
            final(self).arcs() == old(self).arcs(),
            final(self).edge_seq() == old(self).edge_seq(),
            old(self).added_node(final(self), cid@, content, timestamp, r),
    {
        if self.position(&cid).is_some() {
            return Err(GraphError::DuplicateCid(cid));
        }
        let ghost before = *self;
        let root = cid.clone();
        let leaf = cid.clone();
        let node = CidNode { cid, content, timestamp, metadata: Vec::new() };
        dag_add_node(&mut self.shape);
        self.nodes.push(node);
        self.roots.push(root);
        self.leaves.push(leaf);
        proof {
            let n = before.node_seq().len() as int;
            assert(self.node_seq().drop_last() =~= before.node_seq());
            assert(self.cids() =~= before.cids().push(cid@));
            assert(self.root_seq() =~= before.root_seq().push(cid@));
            assert(self.leaf_seq() =~= before.leaf_seq().push(cid@));
            assert(self.cids().index_of(cid@) == n) by {
                assert(self.cids()[n] == cid@);
            }
            assert forall|c: Seq<u8>| before.contains(c) implies self.cids().index_of(c)
                == before.cids().index_of(c) by {
                let j = before.cids().index_of(c);
                assert(self.cids()[j] == c);
            }
            assert forall|v: int| self.has_causal_parent(v) == before.has_causal_parent(v) by {
                if self.has_causal_parent(v) {
                    let e = choose|e: int| self.causal_into(e, v);
                    assert(before.causal_into(e, v));
                }
                if before.has_causal_parent(v) {
                    let e = choose|e: int| before.causal_into(e, v);
                    assert(self.causal_into(e, v));
                }
            }
            assert forall|v: int| self.has_causal_child(v) == before.has_causal_child(v) by {
                if self.has_causal_child(v) {
                    let e = choose|e: int| self.causal_out_of(e, v);
                    assert(before.causal_out_of(e, v));
                }
                if before.has_causal_child(v) {
                    let e = choose|e: int| before.causal_out_of(e, v);
                    assert(self.causal_out_of(e, v));
                }
            }
            assert(!self.has_causal_parent(n) && !self.has_causal_child(n)) by {
                if self.has_causal_parent(n) {
                    let e = choose|e: int| self.causal_into(e, n);
                    assert(0 <= before.arcs()[e].1 < n);
                }
                if self.has_causal_child(n) {
                    let e = choose|e: int| self.causal_out_of(e, n);
                    assert(0 <= before.arcs()[e].0 < n);
                }
            }
            assert forall|c: Seq<u8>| c != cid@ implies self.contains(c) == before.contains(c) by {
                if self.contains(c) {
                    let j = choose|j: int| 0 <= j < self.cids().len() && self.cids()[j] == c;
                    assert(before.cids()[j] == c);
                }
                if before.contains(c) {
                    let j = choose|j: int| 0 <= j < before.cids().len() && before.cids()[j] == c;
                    assert(self.cids()[j] == c);
                }
            }
            assert(self.cids()[n] == cid@);
            assert(self.contains(cid@));
            assert(before.root_seq().contains(cid@) <==> before.is_root(cid@));
            assert(before.leaf_seq().contains(cid@) <==> before.is_leaf(cid@));
            assert(self.root_seq().no_duplicates()) by {
                assert forall|i: int, j: int|
                    0 <= i < self.root_seq().len() && 0 <= j < self.root_seq().len() && i
                        != j implies self.root_seq()[i] != self.root_seq()[j] by {
                    if i < before.root_seq().len() {
                        assert(before.root_seq().contains(before.root_seq()[i]));
                    }
                    if j < before.root_seq().len() {
                        assert(before.root_seq().contains(before.root_seq()[j]));
                    }
                }
            }
            assert(self.leaf_seq().no_duplicates()) by {
                assert forall|i: int, j: int|
                    0 <= i < self.leaf_seq().len() && 0 <= j < self.leaf_seq().len() && i
                        != j implies self.leaf_seq()[i] != self.leaf_seq()[j] by {
                    if i < before.leaf_seq().len() {
                        assert(before.leaf_seq().contains(before.leaf_seq()[i]));
                    }
                    if j < before.leaf_seq().len() {
                        assert(before.leaf_seq().contains(before.leaf_seq()[j]));
                    }
                }
            }
            assert forall|c: Seq<u8>| #[trigger] self.root_seq().contains(c) <==> self.is_root(c) by {
                if c == cid@ {
                    assert(self.root_seq()[before.root_seq().len() as int] == c);
                } else {
                    assert(before.root_seq().contains(c) <==> before.is_root(c));
                    if before.root_seq().contains(c) {
                        let j = choose|j: int|
                            0 <= j < before.root_seq().len() && before.root_seq()[j] == c;
                        assert(self.root_seq()[j] == c);
                    }
                    if self.root_seq().contains(c) {
                        let j = choose|j: int|
                            0 <= j < self.root_seq().len() && self.root_seq()[j] == c;
                        assert(before.root_seq()[j] == c);
                    }
                }
            }
            assert forall|c: Seq<u8>| #[trigger] self.leaf_seq().contains(c) <==> self.is_leaf(c) by {
                if c == cid@ {
                    assert(self.leaf_seq()[before.leaf_seq().len() as int] == c);
                } else {
                    assert(before.leaf_seq().contains(c) <==> before.is_leaf(c));
                    if before.leaf_seq().contains(c) {
                        let j = choose|j: int|
                            0 <= j < before.leaf_seq().len() && before.leaf_seq()[j] == c;
                        assert(self.leaf_seq()[j] == c);
                    }
                    if self.leaf_seq().contains(c) {
                        let j = choose|j: int|
                            0 <= j < self.leaf_seq().len() && self.leaf_seq()[j] == c;
                        assert(before.leaf_seq()[j] == c);
                    }
                }
            }
        }
        Ok(())
    }

    /// `after` has the arcs, edges, roots and leaves of `self`.
    pub open spec fn same_links_as(&self, after: &Self) -> bool {
        &&& after.arcs() == self.arcs()
        &&& after.edge_seq() == self.edge_seq()
        &&& after.root_seq() == self.root_seq()
        &&& after.leaf_seq() == self.leaf_seq()
    }

    /// What adding an edge of the given kind from `from` to `to` makes of
    /// `self`: `CidNotFound` and no change where an end is missing, the first
    /// missing end named; `CycleDetected` and no change where `to` reaches
    /// `from` already; else the edge added as the last. A causal edge takes
    /// `to` out of the roots and `from` out of the leaves.
    pub open spec fn linked(
        &self,
        after: &Self,
        from: Seq<u8>,
        to: Seq<u8>,
        kind: CidEdgeType,
        r: Result<(), GraphError>,
    ) -> bool {
        if !self.contains(from) {
            &&& r is Err
            &&& r->Err_0 is CidNotFound
            &&& r->Err_0->CidNotFound_0@ == from
            &&& self.same_links_as(after)
        } else if !self.contains(to) {
            &&& r is Err
            &&& r->Err_0 is CidNotFound
            &&& r->Err_0->CidNotFound_0@ == to
            &&& self.same_links_as(after)
        } else if reachable(self.links(), to, from) {
            &&& r is Err
            &&& r->Err_0 is CycleDetected
            &&& self.same_links_as(after)
        } else {
            &&& r is Ok
            &&& after.arcs() == self.arcs().push(
                (self.cids().index_of(from), self.cids().index_of(to)),
            )
            &&& after.edge_seq().len() == self.edge_seq().len() + 1
            &&& after.edge_seq().drop_last() == self.edge_seq()
            &&& after.edge_seq().last().edge_type == kind
            &&& after.edge_seq().last().metadata@.len() == 0
            &&& after.root_seq() == if kind is Causal {
                dropped(self.root_seq(), to)
            } else {
                self.root_seq()
            }
            &&& after.leaf_seq() == if kind is Causal {
                dropped(self.leaf_seq(), from)
            } else {
                self.leaf_seq()
            }
        }
    }

    /// `after` is `self` with an edge of the given kind from `from` to `to`,
    /// where such an edge could be added, else `self`.
    pub open spec fn after_link(
        &self,
        after: &Self,
        from: Seq<u8>,
        to: Seq<u8>,
        kind: CidEdgeType,
    ) -> bool {
        after.node_seq() == self.node_seq() && exists|r: Result<(), GraphError>|
            self.linked(after, from, to, kind, r)
    }

    /// An edge from `from` to `to` can be added.
    pub open spec fn can_link(&self, from: Seq<u8>, to: Seq<u8>) -> bool {
        self.contains(from) && self.contains(to) && !reachable(self.links(), to, from)
    }

    proof fn lemma_same_marks(&self, before: &Self)
        requires
            self.arcs() == before.arcs(),
            self.edge_seq() == before.edge_seq(),
            self.node_seq() == before.node_seq(),
        ensures
            self.cids() == before.cids(),
            forall|v: int| self.has_causal_parent(v) == before.has_causal_parent(v),
            forall|v: int| self.has_causal_child(v) == before.has_causal_child(v),
            forall|c: Seq<u8>| self.is_root(c) == before.is_root(c),
            forall|c: Seq<u8>| self.is_leaf(c) == before.is_leaf(c),
    {
        assert(self.cids() =~= before.cids());
        assert forall|v: int| self.has_causal_parent(v) == before.has_causal_parent(v) by {
            if self.has_causal_parent(v) {
                let e = choose|e: int| self.causal_into(e, v);
                assert(before.causal_into(e, v));
            }
            if before.has_causal_parent(v) {
                let e = choose|e: int| before.causal_into(e, v);
                assert(self.causal_into(e, v));
            }
        }
        assert forall|v: int| self.has_causal_child(v) == before.has_causal_child(v) by {
            if self.has_causal_child(v) {
                let e = choose|e: int| self.causal_out_of(e, v);
                assert(before.causal_out_of(e, v));
            }
            if before.has_causal_child(v) {
                let e = choose|e: int| before.causal_out_of(e, v);
                assert(self.causal_out_of(e, v));
            }
        }
    }

    fn link(&mut self, from: ContentId, to: ContentId, kind: CidEdgeType) -> (r: Result<
        (),
        GraphError,
    >)
        requires
            old(self).wf(),
        ensures
            final(self).wf(),
            final(self).node_seq() == old(self).node_seq(),
            old(self).linked(final(self), from@, to@, kind, r),
    {
        let a = match self.position(&from) {
            Some(i) => i,
            None => {
                return Err(GraphError::CidNotFound(from));
            },
        };
        let b = match self.position(&to) {
            Some(i) => i,
            None => {
                return Err(GraphError::CidNotFound(to));
            },
        };
        let ghost before = *self;
        proof {
            lemma_reach_relabel(before.cids(), before.arcs(), b as int, a as int);
        }
        match dag_add_arc(&mut self.shape, a, b) {
            None => {
                proof {
                    self.lemma_same_marks(&before);
                }
                Err(GraphError::CycleDetected)
            },
            Some(_) => {
                self.edges.push(CidEdge { edge_type: kind, metadata: Vec::new() });
                let causal = match kind {
                    CidEdgeType::Causal => true,
                    _ => false,
                };
                if causal {
                    drop_cid(&mut self.roots, &to);
                    drop_cid(&mut self.leaves, &from);
                }
                proof {
                    let m = before.arcs().len() as int;
                    assert(self.edge_seq().drop_last() =~= before.edge_seq());
                    assert(self.cids() =~= before.cids());
                    lemma_push_keeps_acyclic(before.arcs(), a as int, b as int);
                    assert(self.arcs()[m] == (a as int, b as int));
                    assert forall|v: int|
                        self.has_causal_parent(v) == (before.has_causal_parent(v) || (causal && v
                            == b)) by {
                        if self.has_causal_parent(v) {
                            let e = choose|e: int| self.causal_into(e, v);
                            if e < m {
                                assert(before.causal_into(e, v));
                            }
                        }
                        if before.has_causal_parent(v) {
                            let e = choose|e: int| before.causal_into(e, v);
                            assert(self.arcs()[e] == before.arcs()[e]);
                            assert(self.edge_seq()[e] == before.edge_seq()[e]);
                            assert(self.causal_into(e, v));
                        }
                        if causal && v == b {
                            assert(self.causal_into(m, v));
                        }
                    }
                    assert forall|v: int|
                        self.has_causal_child(v) == (before.has_causal_child(v) || (causal && v
                            == a)) by {
                        if self.has_causal_child(v) {
                            let e = choose|e: int| self.causal_out_of(e, v);
                            if e < m {
                                assert(before.causal_out_of(e, v));
                            }
                        }
                        if before.has_causal_child(v) {
                            let e = choose|e: int| before.causal_out_of(e, v);
                            assert(self.arcs()[e] == before.arcs()[e]);
                            assert(self.edge_seq()[e] == before.edge_seq()[e]);
                            assert(self.causal_out_of(e, v));
                        }
                        if causal && v == a {
                            assert(self.causal_out_of(m, v));
                        }
                    }
                    assert(before.cids()[a as int] == from@);
                    assert(before.cids()[b as int] == to@);
                    assert forall|c: Seq<u8>| #[trigger]
                        self.root_seq().contains(c) <==> self.is_root(c) by {
                        assert(before.root_seq().contains(c) <==> before.is_root(c));
                        assert(self.contains(c) == before.contains(c));
                        assert(self.cids().index_of(c) == before.cids().index_of(c));
                        let i = before.cids().index_of(c);
                        assert(self.has_causal_parent(i) == (before.has_causal_parent(i) || (causal
                            && i == b)));
                        if before.contains(c) {
                            assert(before.cids()[i] == c);
                            assert(i == b <==> c == to@);
                        }
                        if causal {
                            assert(self.root_seq().contains(c) <==> before.root_seq().contains(c)
                                && c != to@);
                        } else {
                            assert(self.root_seq() == before.root_seq());
                        }
                    }
                    assert forall|c: Seq<u8>| #[trigger]
                        self.leaf_seq().contains(c) <==> self.is_leaf(c) by {
                        assert(before.leaf_seq().contains(c) <==> before.is_leaf(c));
                        assert(self.contains(c) == before.contains(c));
                        assert(self.cids().index_of(c) == before.cids().index_of(c));
                        let i = before.cids().index_of(c);
                        assert(self.has_causal_child(i) == (before.has_causal_child(i) || (causal
                            && i == a)));
                        if before.contains(c) {
                            assert(before.cids()[i] == c);
                            assert(i == a <==> c == from@);
                        }
                        if causal {
                            assert(self.leaf_seq().contains(c) <==> before.leaf_seq().contains(c)
                                && c != from@);
                        } else {
                            assert(self.leaf_seq() == before.leaf_seq());
                        }
                    }
                }
                Ok(())
            },
        }
    }

    /// Adds a causal edge from `previous` to `next`.
    pub fn add_causal_edge(&mut self, previous: ContentId, next: ContentId) -> (r: Result<
        (),
        GraphError,
    >)
        requires
            old(self).wf(),
        ensures
            final(self).wf(),
            final(self).node_seq() == old(self).node_seq(),
            old(self).linked(final(self), previous@, next@, CidEdgeType::Causal, r),
    {
        self.link(previous, next, CidEdgeType::Causal)
    }

    /// Adds a reference edge from `from` to `to`.
    pub fn add_reference(&mut self, from: ContentId, to: ContentId) -> (r: Result<(), GraphError>)
        requires
            old(self).wf(),
        ensures
            final(self).wf(),
            final(self).node_seq() == old(self).node_seq(),
            old(self).linked(final(self), from@, to@, CidEdgeType::Reference, r),
    {
        self.link(from, to, CidEdgeType::Reference)
    }

    /// The positions next to the node at `v`: those that its arcs lead to,
    /// or those that the arcs into it come from.
    fn neighbors(&self, v: usize, forward: bool) -> (r: Vec<usize>)
        requires
            self.wf(),
            v < self.node_seq().len(),
        ensures
            forall|j: int| 0 <= j < r@.len() ==> r@[j] < self.node_seq().len(),
            forall|u: int|
                #[trigger] directed(self.arcs(), forward).contains((v as int, u)) ==> exists|j: int|
                    0 <= j < r@.len() && r@[j] == u,
            forall|j: int|
                0 <= j < r@.len() ==> directed(self.arcs(), forward).contains(
                    (v as int, #[trigger] r@[j] as int),
                ),
    {
        let pairs = if forward {
            dag_children(&self.shape, v)
        } else {
            dag_parents(&self.shape, v)
        };
        let ghost links = directed(self.arcs(), forward);
        let mut r: Vec<usize> = Vec::new();
        let mut i: usize = 0;
        while i < pairs.len()
            invariant
                i <= pairs@.len(),
                r@.len() == i,
                forall|j: int| 0 <= j < i ==> r@[j] == pairs@[j].1,
            decreases pairs@.len() - i,
        {
            r.push(pairs[i].1);
            i += 1;
        }
        proof {
            let arcs = self.arcs();
            assert forall|j: int| 0 <= j < r@.len() implies r@[j] < self.node_seq().len()
                && links.contains((v as int, #[trigger] r@[j] as int)) by {
                let e = pairs@[j].0 as int;
                assert(0 <= arcs[e].0 < self.node_seq().len());
                assert(0 <= arcs[e].1 < self.node_seq().len());
                if forward {
                    assert(links[e] == (v as int, r@[j] as int));
                } else {
                    assert(links[e] == (v as int, r@[j] as int));
                }
            }
            assert forall|u: int| #[trigger] links.contains((v as int, u)) implies exists|j: int|
                0 <= j < r@.len() && r@[j] == u by {
                let e = choose|e: int| 0 <= e < links.len() && links[e] == (v as int, u);
                if forward {
                    assert(arcs[e].0 == v);
                } else {
                    assert(arcs[e].1 == v);
                }
                let j = choose|j: int| 0 <= j < pairs@.len() && pairs@[j].0 == e;
                assert(r@[j] == pairs@[j].1);
            }
        }
        r
    }

    /// For each position whether the node at `s` reaches it, following the
    /// arcs forward or backward.
    fn closure(&self, s: usize, forward: bool) -> (seen: Vec<bool>)
        requires
            self.wf(),
            s < self.node_seq().len(),
        ensures
            seen@.len() == self.node_seq().len(),
            forall|v: int|
                0 <= v < seen@.len() ==> (#[trigger] seen@[v] <==> reachable(
                    directed(self.arcs(), forward),
                    s as int,
                    v,
                )),
    {
        let n = self.nodes.len();
        let ghost links = directed(self.arcs(), forward);
        let mut seen: Vec<bool> = Vec::new();
        let mut k: usize = 0;
        while k < n
            invariant
                k <= n,
                seen@.len() == k,
                forall|j: int| 0 <= j < k ==> !seen@[j],
            decreases n - k,
        {
            seen.push(false);
            k += 1;
        }
        seen.set(s, true);
        let mut stack: Vec<usize> = Vec::new();
        stack.push(s);
        let ghost mut marked: Set<int> = Set::empty().insert(s as int);
        proof {
            let p = seq![s as int];
            assert(crate::walks::is_walk(links, p) && p[0] == s && p.last() == s);
            vstd::set_lib::lemma_int_range(0, n as int);
            assert(marked.subset_of(vstd::set_lib::set_int_range(0, n as int)));
            vstd::set_lib::lemma_len_subset(marked, vstd::set_lib::set_int_range(0, n as int));
            assert(stack@[0] == s);
            assert forall|w: int|
                0 <= w < n && seen@[w] && !stack@.contains(w as usize) implies #[trigger] closed_at(
                links,
                seen@,
                w,
            ) by {
                assert(w == s);
            }
        }
        while stack.len() > 0
            invariant
                self.wf(),
                n == self.node_seq().len(),
                links == directed(self.arcs(), forward),
                s < n,
                seen@.len() == n,
                seen@[s as int],
                forall|v: int| 0 <= v < n && #[trigger] seen@[v] ==> reachable(links, s as int, v),
                forall|j: int| 0 <= j < stack@.len() ==> #[trigger] stack@[j] < n && seen@[stack@[j] as int],
                forall|w: int|
                    0 <= w < n && seen@[w] && !stack@.contains(w as usize) ==> #[trigger] closed_at(
                        links,
                        seen@,
                        w,
                    ),
                marked.finite(),
                marked.len() <= n,
                forall|v: int| marked.contains(v) <==> 0 <= v < n && seen@[v],
            decreases n - marked.len(), stack@.len(),
        {
            let ghost stack0 = stack@;
            let ghost marked0 = marked;
            let v = stack.pop().unwrap();
            let ns = self.neighbors(v, forward);
            let mut j: usize = 0;
            proof {
                assert(stack0[stack0.len() - 1] == v);
                assert forall|w: int|
                    0 <= w < n && seen@[w] && !stack@.contains(w as usize) && w
                        != v implies #[trigger] closed_at(links, seen@, w) by {
                    if stack0.contains(w as usize) {
                        let i = choose|i: int| 0 <= i < stack0.len() && stack0[i] == w as usize;
                        assert(i < stack0.len() - 1);
                        assert(stack@[i] == w as usize);
                    }
                }
                assert forall|i: int| 0 <= i < stack@.len() implies #[trigger] stack@[i] < n
                    && seen@[stack@[i] as int] by {
                    assert(stack0[i] == stack@[i]);
                }
            }
            while j < ns.len()
                invariant
                    self.wf(),
                    n == self.node_seq().len(),
                    links == directed(self.arcs(), forward),
                    s < n,
                    v < n,
                    seen@.len() == n,
                    seen@[s as int],
                    seen@[v as int],
                    j <= ns@.len(),
                    forall|i: int| 0 <= i < ns@.len() ==> ns@[i] < n,
                    forall|i: int| 0 <= i < ns@.len() ==> links.contains((v as int, #[trigger] ns@[i] as int)),
                    forall|i: int| 0 <= i < j ==> seen@[#[trigger] ns@[i] as int],
                    forall|x: int| 0 <= x < n && #[trigger] seen@[x] ==> reachable(links, s as int, x),
                    forall|i: int| 0 <= i < stack@.len() ==> #[trigger] stack@[i] < n && seen@[stack@[i] as int],
                    forall|w: int|
                        0 <= w < n && seen@[w] && !stack@.contains(w as usize) && w != v
                            ==> #[trigger] closed_at(links, seen@, w),
                    marked.finite(),
                    marked.len() <= n,
                    forall|x: int| marked.contains(x) <==> 0 <= x < n && seen@[x],
                    marked0.len() <= marked.len(),
                    marked.len() == marked0.len() ==> stack@.len() == stack0.len() - 1,
                decreases ns@.len() - j,
            {
                let u = ns[j];
                if !seen[u] {
                    let ghost seen0 = seen@;
                    let ghost stack1 = stack@;
                    seen.set(u, true);
                    stack.push(u);
                    proof {
                        lemma_reach_step(links, s as int, v as int, u as int);
                        marked = marked.insert(u as int);
                        vstd::set_lib::lemma_int_range(0, n as int);
                        assert(marked.subset_of(vstd::set_lib::set_int_range(0, n as int)));
                        vstd::set_lib::lemma_len_subset(
                            marked,
                            vstd::set_lib::set_int_range(0, n as int),
                        );
                        assert forall|w: int|
                            0 <= w < n && seen@[w] && !stack@.contains(w as usize) && w
                                != v implies #[trigger] closed_at(links, seen@, w) by {
                            assert(w != u) by {
                                assert(stack@[stack@.len() - 1] == u);
                            }
                            assert(seen0[w]);
                            assert(!stack1.contains(w as usize)) by {
                                if stack1.contains(w as usize) {
                                    let i = choose|i: int| 0 <= i < stack1.len() && stack1[i] == w as usize;
                                    assert(stack@[i] == w as usize);
                                }
                            }
                            assert(closed_at(links, seen0, w));
                        }
                        assert forall|i: int| 0 <= i < stack@.len() implies #[trigger] stack@[i] < n
                            && seen@[stack@[i] as int] by {
                            if i < stack1.len() {
                                assert(stack1[i] < n && seen0[stack1[i] as int]);
                            }
                        }
                    }
                }
                j += 1;
            }
            proof {
                assert(closed_at(links, seen@, v as int)) by {
                    assert forall|u: int| #[trigger] links.contains((v as int, u)) implies 0 <= u
                        < seen@.len() && seen@[u] by {
                        let i = choose|i: int| 0 <= i < ns@.len() && ns@[i] == u;
                        assert(seen@[ns@[i] as int]);
                    }
                }
            }
        }
        proof {
            let held = |x: int| 0 <= x < n && seen@[x];
            assert forall|v: int| 0 <= v < seen@.len() implies (#[trigger] seen@[v] <==> reachable(
                links,
                s as int,
                v,
            )) by {
                if reachable(links, s as int, v) {
                    assert forall|a: int, b: int| held(a) && #[trigger] links.contains((a, b)) implies held(
                        b,
                    ) by {
                        assert(!stack@.contains(a as usize));
                        assert(closed_at(links, seen@, a));
                    }
                    lemma_closed_holds_reach(links, s as int, held, v);
                }
            }
        }
        seen
    }

    /// `c` is a node that `cid` reaches over at least one edge (forward), or
    /// that reaches `cid` over at least one edge (backward).
    pub open spec fn is_kin(&self, c: Seq<u8>, cid: Seq<u8>, forward: bool) -> bool {
        self.contains(c) && if forward {
            reaches_far(self.links(), cid, c)
        } else {
            reaches_far(self.links(), c, cid)
        }
    }

    /// `out` lists the kin of `cid`, each once, those added later first.
    pub open spec fn lists_kin(&self, out: Seq<Seq<u8>>, cid: Seq<u8>, forward: bool) -> bool {
        &&& out.no_duplicates()
        &&& forall|c: Seq<u8>| #[trigger] out.contains(c) <==> self.is_kin(c, cid, forward)
        &&& forall|i: int, j: int|
            0 <= i < j < out.len() ==> self.cids().index_of(out[i]) > self.cids().index_of(out[j])
    }

    proof fn lemma_kin_at(&self, s: int, v: int, forward: bool)
        requires
            self.wf(),
            0 <= s < self.node_seq().len(),
            0 <= v < self.node_seq().len(),
        ensures
            self.is_kin(self.cids()[v], self.cids()[s], forward) <==> v != s && reachable(
                directed(self.arcs(), forward),
                s,
                v,
            ),
    {
        let arcs = self.arcs();
        let ids = self.cids();
        assert(ids.contains(ids[v]));
        lemma_reach_flip(arcs, s, v);
        lemma_reach_far(arcs, s, v);
        lemma_reach_far(arcs, v, s);
        lemma_far_relabel(ids, arcs, s, v);
        lemma_far_relabel(ids, arcs, v, s);
        if v == s {
            lemma_reach_far(arcs, s, s);
        }
    }

    fn kin(&self, cid: &ContentId, forward: bool) -> (r: Vec<ContentId>)
        requires
            self.wf(),
        ensures
            self.lists_kin(views(r@), cid@, forward),
    {
        let mut r: Vec<ContentId> = Vec::new();
        let s = match self.position(cid) {
            Some(i) => i,
            None => {
                proof {
                    assert forall|c: Seq<u8>| !self.is_kin(c, cid@, forward) by {
                        if self.is_kin(c, cid@, forward) {
                            if forward {
                                lemma_far_ends(self.cids(), self.arcs(), cid@, c);
                            } else {
                                lemma_far_ends(self.cids(), self.arcs(), c, cid@);
                            }
                        }
                    }
                }
                return r;
            },
        };
        let seen = self.closure(s, forward);
        let n = self.nodes.len();
        let ghost mut ps: Seq<int> = Seq::empty();
        let mut k: usize = n;
        while k > 0
            invariant
                self.wf(),
                n == self.node_seq().len(),
                k <= n,
                s < n,
                seen@.len() == n,
                ps.len() == r@.len(),
                forall|i: int|
                    0 <= i < ps.len() ==> k <= #[trigger] ps[i] < n && ps[i] != s && seen@[ps[i]]
                        && r@[i]@ == self.cids()[ps[i]],
                forall|i: int, j: int| 0 <= i < j < ps.len() ==> ps[i] > ps[j],
                forall|v: int| k <= v < n && v != s && seen@[v] ==> ps.contains(v),
            decreases k,
        {
            k -= 1;
            if seen[k] && k != s {
                r.push(self.nodes[k].cid.clone());
                proof {
                    let before = ps;
                    ps = ps.push(k as int);
                    assert forall|v: int| k <= v < n && v != s && seen@[v] implies ps.contains(v) by {
                        if v == k {
                            assert(ps[ps.len() - 1] == v);
                        } else {
                            assert(before.contains(v));
                            let i = choose|i: int| 0 <= i < before.len() && before[i] == v;
                            assert(ps[i] == v);
                        }
                    }
                }
            }
        }
        proof {
            let out = views(r@);
            let ids = self.cids();
            assert forall|i: int| 0 <= i < out.len() implies ids.index_of(#[trigger] out[i])
                == ps[i] by {
                assert(ids[ps[i]] == out[i]);
            }
            assert forall|i: int, j: int| 0 <= i < out.len() && 0 <= j < out.len() && i != j implies out[i]
                != out[j] by {
                assert(ids.index_of(out[i]) == ps[i]);
                assert(ids.index_of(out[j]) == ps[j]);
                if i < j {
                    assert(ps[i] > ps[j]);
                } else {
                    assert(ps[j] > ps[i]);
                }
            }
            assert(ids[s as int] == cid@);
            assert forall|c: Seq<u8>| #[trigger] out.contains(c) <==> self.is_kin(c, cid@, forward) by {
                if out.contains(c) {
                    let i = choose|i: int| 0 <= i < out.len() && out[i] == c;
                    self.lemma_kin_at(s as int, ps[i], forward);
                }
                if self.is_kin(c, cid@, forward) {
                    let v = ids.index_of(c);
                    assert(ids[v] == c);
                    self.lemma_kin_at(s as int, v, forward);
                    assert(ps.contains(v));
                    let i = choose|i: int| 0 <= i < ps.len() && ps[i] == v;
                    assert(out[i] == c);
                }
            }
            assert forall|i: int, j: int| 0 <= i < j < out.len() implies ids.index_of(out[i])
                > ids.index_of(out[j]) by {
                assert(ids.index_of(out[i]) == ps[i]);
                assert(ids.index_of(out[j]) == ps[j]);
            }
        }
        r
    }

    /// The nodes that reach `cid` over at least one edge of any kind, each
    /// once, those added later first; none for an unknown identifier.
    pub fn ancestors(&self, cid: &ContentId) -> (r: Vec<ContentId>)
        requires
            self.wf(),
        ensures
            self.lists_kin(views(r@), cid@, false),
    {
        self.kin(cid, false)
    }

    /// The nodes that `cid` reaches over at least one edge of any kind, each
    /// once, those added later first; none for an unknown identifier.
    pub fn descendants(&self, cid: &ContentId) -> (r: Vec<ContentId>)
        requires
            self.wf(),
        ensures
            self.lists_kin(views(r@), cid@, true),
    {
        self.kin(cid, true)
    }

    /// `c` reaches both `a` and `b` over at least one edge.
    pub open spec fn is_common_ancestor(&self, c: Seq<u8>, a: Seq<u8>, b: Seq<u8>) -> bool {
        self.is_kin(c, a, false) && self.is_kin(c, b, false)
    }

    /// Of the nodes that reach both `a` and `b`, the one added last.
    pub fn common_ancestor(&self, a: &ContentId, b: &ContentId) -> (r: Option<ContentId>)
        requires
            self.wf(),
        ensures
            r is None <==> forall|c: Seq<u8>| !self.is_common_ancestor(c, a@, b@),
            r matches Some(found) ==> self.is_common_ancestor(found@, a@, b@) && forall|c: Seq<u8>|
                self.is_common_ancestor(c, a@, b@) ==> self.cids().index_of(c)
                    <= self.cids().index_of(found@),
    {
        let of_a = self.ancestors(a);
        let of_b = self.ancestors(b);
        let mut i: usize = 0;
        while i < of_b.len()
            invariant
                i <= of_b@.len(),
                self.lists_kin(views(of_a@), a@, false),
                self.lists_kin(views(of_b@), b@, false),
                forall|j: int| 0 <= j < i ==> !views(of_a@).contains(#[trigger] views(of_b@)[j]),
            decreases of_b@.len() - i,
        {
            let at = find_cid(&of_a, &of_b[i]);
            if at.is_some() {
                let found = of_b[i].clone();
                proof {
                    let fa = views(of_a@);
                    let fb = views(of_b@);
                    assert(fb[i as int] == found@);
                    assert(fb.contains(found@));
                    assert(fa[at->0 as int] == found@);
                    assert(fa.contains(found@));
                    assert(self.is_common_ancestor(found@, a@, b@));
                    assert forall|c: Seq<u8>| self.is_common_ancestor(c, a@, b@) implies self.cids().index_of(
                        c,
                    ) <= self.cids().index_of(found@) by {
                        assert(fb.contains(c));
                        assert(fa.contains(c));
                        let j = choose|j: int| 0 <= j < fb.len() && fb[j] == c;
                        assert(j >= i);
                    }
                }
                return Some(found);
            }
            i += 1;
        }
        proof {
            let fa = views(of_a@);
            let fb = views(of_b@);
            assert forall|c: Seq<u8>| !self.is_common_ancestor(c, a@, b@) by {
                if self.is_common_ancestor(c, a@, b@) {
                    assert(fb.contains(c));
                    assert(fa.contains(c));
                    let j = choose|j: int| 0 <= j < fb.len() && fb[j] == c;
                    assert(!fa.contains(fb[j]));
                }
            }
        }
        None
    }

    /// `e` is the first causal edge into the node at position `v`.
    pub open spec fn first_causal_into(&self, e: int, v: int) -> bool {
        self.causal_into(e, v) && forall|f: int| self.causal_into(f, v) ==> e <= f
    }

    /// The position of the source of the first causal edge into the node at
    /// position `v`.
    pub open spec fn first_causal_parent(&self, v: int) -> Option<int> {
        if self.has_causal_parent(v) {
            Some(self.arcs()[choose|e: int| self.first_causal_into(e, v)].0)
        } else {
            None
        }
    }

    /// The positions from the node at `v` up along first causal edges, at
    /// most `steps` of them, the farthest first.
    pub open spec fn chain_up(&self, v: int, steps: nat) -> Seq<int>
        decreases steps,
    {
        if steps == 0 {
            seq![v]
        } else {
            match self.first_causal_parent(v) {
                None => seq![v],
                Some(p) => self.chain_up(p, (steps - 1) as nat).push(v),
            }
        }
    }

    fn causal_parent(&self, v: usize) -> (r: Option<usize>)
        requires
            self.wf(),
            v < self.node_seq().len(),
        ensures
            match r {
                Some(p) => self.first_causal_parent(v as int) == Some(p as int) && p
                    < self.node_seq().len(),
                None => self.first_causal_parent(v as int) is None,
            },
    {
        let pairs = dag_parents(&self.shape, v);
        let mut best: Option<(usize, usize)> = None;
        let mut i: usize = 0;
        while i < pairs.len()
            invariant
                self.wf(),
                i <= pairs@.len(),
                forall|j: int|
                    0 <= j < pairs@.len() ==> (#[trigger] pairs@[j]).0 < self.arcs().len()
                        && self.arcs()[pairs@[j].0 as int] == (pairs@[j].1 as int, v as int),
                match best {
                    Some(b) => self.causal_into(b.0 as int, v as int) && self.arcs()[b.0 as int].0
                        == b.1 && forall|j: int|
                        0 <= j < i && self.causal_into(pairs@[j].0 as int, v as int) ==> b.0
                            <= pairs@[j].0,
                    None => forall|j: int| 0 <= j < i ==> !self.causal_into(pairs@[j].0 as int, v as int),
                },
            decreases pairs@.len() - i,
        {
            let e = pairs[i].0;
            let causal = match self.edges[e].edge_type {
                CidEdgeType::Causal => true,
                _ => false,
            };
            if causal {
                best = match best {
                    Some(b) => if e < b.0 {
                        Some(pairs[i])
                    } else {
                        Some(b)
                    },
                    None => Some(pairs[i]),
                };
            }
            i += 1;
        }
        match best {
            Some(b) => {
                proof {
                    assert forall|f: int| self.causal_into(f, v as int) implies b.0 <= f by {
                        let j = choose|j: int| 0 <= j < pairs@.len() && pairs@[j].0 == f;
                        assert(self.causal_into(pairs@[j].0 as int, v as int));
                    }
                    assert(self.first_causal_into(b.0 as int, v as int));
                    let e = choose|e: int| self.first_causal_into(e, v as int);
                    assert(e == b.0);
                    assert(0 <= self.arcs()[b.0 as int].0 < self.node_seq().len());
                }
                Some(b.1)
            },
            None => {
                proof {
                    if self.has_causal_parent(v as int) {
                        let f = choose|f: int| self.causal_into(f, v as int);
                        let j = choose|j: int| 0 <= j < pairs@.len() && pairs@[j].0 == f;
                        assert(!self.causal_into(pairs@[j].0 as int, v as int));
                    }
                }
                None
            },
        }
    }

    /// The chain that ends at `from`: for an unknown node the node alone;
    /// else the chain from the node up along first causal edges, the
    /// farthest first.
    pub open spec fn chain_to(&self, from: Seq<u8>) -> Seq<Seq<u8>> {
        if !self.contains(from) {
            seq![from]
        } else {
            rename(self.cids(), self.chain_up(self.cids().index_of(from), self.node_seq().len()))
        }
    }

    /// What verifying the chain from `from` gives: the chain that ends at
    /// `from`, unless a root was asked for and the chain begins elsewhere,
    /// which fails the verification.
    pub open spec fn chain_verified(
        &self,
        from: Seq<u8>,
        to_root: Option<Seq<u8>>,
        r: Result<Vec<ContentId>, GraphError>,
    ) -> bool {
        if to_root is Some && self.chain_to(from)[0] != to_root->0 {
            r is Err && r->Err_0 is ChainVerificationFailed
        } else {
            r is Ok && views(r->Ok_0@) == self.chain_to(from)
        }
    }

    proof fn lemma_chain_up(&self, v: int, steps: nat)
        requires
            self.wf(),
            0 <= v < self.node_seq().len(),
        ensures
            self.chain_up(v, steps).len() >= 1,
            self.chain_up(v, steps).last() == v,
            forall|i: int|
                0 <= i < self.chain_up(v, steps).len() ==> 0 <= #[trigger] self.chain_up(v, steps)[i]
                    < self.node_seq().len(),
        decreases steps,
    {
        if steps > 0 {
            match self.first_causal_parent(v) {
                None => {},
                Some(p) => {
                    let e = choose|e: int| self.first_causal_into(e, v);
                    assert(self.has_causal_parent(v));
                    let w = choose|w: int| self.causal_into(w, v);
                    assert(self.first_causal_into(e, v)) by {
                        self.lemma_first_exists(v, w);
                    }
                    assert(0 <= self.arcs()[e].0 < self.node_seq().len());
                    self.lemma_chain_up(p, (steps - 1) as nat);
                },
            }
        }
    }

    proof fn lemma_first_exists(&self, v: int, w: int)
        requires
            self.causal_into(w, v),
        ensures
            exists|e: int| self.first_causal_into(e, v),
        decreases w,
    {
        if exists|f: int| self.causal_into(f, v) && f < w {
            let f = choose|f: int| self.causal_into(f, v) && f < w;
            self.lemma_first_exists(v, f);
        } else {
            assert(self.first_causal_into(w, v));
        }
    }

    proof fn lemma_chain_walk(&self, v: int, steps: nat)
        requires
            self.wf(),
            0 <= v < self.node_seq().len(),
        ensures
            is_walk(self.arcs(), self.chain_up(v, steps)),
            self.chain_up(v, steps).len() <= steps + 1,
            self.chain_up(v, steps).len() <= steps ==> !self.has_causal_parent(
                self.chain_up(v, steps)[0],
            ),
        decreases steps,
    {
        self.lemma_chain_up(v, steps);
        if steps > 0 {
            match self.first_causal_parent(v) {
                None => {},
                Some(p) => {
                    let w = choose|w: int| self.causal_into(w, v);
                    self.lemma_first_exists(v, w);
                    let e = choose|e: int| self.first_causal_into(e, v);
                    assert(self.arcs()[e] == (p, v));
                    assert(0 <= self.arcs()[e].0 < self.node_seq().len());
                    self.lemma_chain_up(p, (steps - 1) as nat);
                    self.lemma_chain_walk(p, (steps - 1) as nat);
                    let rest = self.chain_up(p, (steps - 1) as nat);
                    assert(self.arcs().contains((rest.last(), v)));
                    lemma_walk_push(self.arcs(), rest, v);
                    assert(rest.push(v)[0] == rest[0]);
                },
            }
        }
    }

    /// The chain from a node up along first causal edges is a walk of the
    /// graph that ends at the node and begins at a node that no causal edge
    /// enters.
    pub proof fn lemma_chain_begins_at_root(&self, v: int)
        requires
            self.wf(),
            0 <= v < self.node_seq().len(),
        ensures
            is_walk(self.arcs(), self.chain_up(v, self.node_seq().len())),
            self.chain_up(v, self.node_seq().len()).last() == v,
            !self.has_causal_parent(self.chain_up(v, self.node_seq().len())[0]),
    {
        let n = self.node_seq().len();
        let chain = self.chain_up(v, n);
        self.lemma_chain_up(v, n);
        self.lemma_chain_walk(v, n);
        lemma_acyclic_walk_distinct(self.arcs(), chain);
        assert(in_range(n as int, chain));
        lemma_distinct_in_range(n as int, chain);
    }

    /// Walks from `from` up along causal edges, at a node with several
    /// causal edges into it along the one added first, to a node with none,
    /// and hands out the chain, that node first. A node that the graph does
    /// not hold is a chain of its own. Where `to_root` is given the chain
    /// has to begin there.
    pub fn verify_chain(&self, from: &ContentId, to_root: Option<&ContentId>) -> (r: Result<
        Vec<ContentId>,
        GraphError,
    >)
        requires
            self.wf(),
        ensures
            self.chain_verified(
                from@,
                match to_root {
                    Some(c) => Some(c@),
                    None => None,
                },
                r,
            ),
    {
        let start = match self.position(from) {
            Some(i) => i,
            None => {
                match to_root {
                    Some(root) => {
                        if !root.same(from) {
                            return Err(GraphError::ChainVerificationFailed);
                        }
                    },
                    None => {},
                }
                let mut only: Vec<ContentId> = Vec::new();
                only.push(from.clone());
                assert(views(only@) =~= seq![from@]);
                return Ok(only);
            },
        };
        let n = self.nodes.len();
        let mut below: Vec<usize> = Vec::new();
        let mut current = start;
        let mut left = n;
        while left > 0
            invariant
                self.wf(),
                n == self.node_seq().len(),
                current < n,
                left <= n,
                forall|i: int| 0 <= i < below@.len() ==> below@[i] < n,
                self.chain_up(start as int, n as nat) == self.chain_up(current as int, left as nat)
                    + Seq::new(below@.len(), |i: int| below@[below@.len() - 1 - i] as int),
            decreases left,
        {
            match self.causal_parent(current) {
                Some(p) => {
                    proof {
                        let old_tail = Seq::new(
                            below@.len(),
                            |i: int| below@[below@.len() - 1 - i] as int,
                        );
                        let new_below = below@.push(current);
                        let new_tail = Seq::new(
                            new_below.len(),
                            |i: int| new_below[new_below.len() - 1 - i] as int,
                        );
                        assert(self.chain_up(current as int, left as nat) == self.chain_up(
                            p as int,
                            (left - 1) as nat,
                        ).push(current as int));
                        assert(self.chain_up(p as int, (left - 1) as nat).push(current as int)
                            + old_tail =~= self.chain_up(p as int, (left - 1) as nat) + new_tail);
                    }
                    below.push(current);
                    current = p;
                    left -= 1;
                },
                None => {
                    proof {
                        assert(self.chain_up(current as int, left as nat) == seq![current as int]);
                        assert(self.chain_up(current as int, 0) == seq![current as int]);
                    }
                    left = 0;
                },
            }
        }
        let ghost chain = self.chain_up(start as int, n as nat);
        proof {
            assert(self.chain_up(current as int, 0) == seq![current as int]);
            assert(chain[0] == current);
            assert(self.cids()[start as int] == from@);
        }
        match to_root {
            Some(root) => {
                if !self.nodes[current].cid.same(root) {
                    return Err(GraphError::ChainVerificationFailed);
                }
            },
            None => {},
        }
        let mut out: Vec<ContentId> = Vec::new();
        out.push(self.nodes[current].cid.clone());
        let mut k: usize = below.len();
        while k > 0
            invariant
                n == self.node_seq().len(),
                k <= below@.len(),
                forall|i: int| 0 <= i < below@.len() ==> below@[i] < n,
                out@.len() == 1 + below@.len() - k,
                out@[0]@ == self.cids()[current as int],
                current < n,
                forall|i: int|
                    1 <= i < out@.len() ==> (#[trigger] out@[i])@ == self.cids()[below@[below@.len()
                        - i] as int],
            decreases k,
        {
            k -= 1;
            out.push(self.nodes[below[k]].cid.clone());
        }
        proof {
            let named = rename(self.cids(), chain);
            assert(chain.len() == 1 + below@.len());
            assert forall|i: int| 0 <= i < named.len() implies views(out@)[i] == #[trigger] named[i] by {
                if i > 0 {
                    assert(chain[i] == below@[below@.len() - i] as int);
                }
            }
            assert(views(out@) =~= named);
        }
        Ok(out)
    }
}

impl<T: Clone> CidDag<T> {
    /// `self` is a copy of `other`: node for node the same identifier and
    /// time with a copy of the content, edge for edge the same ends and
    /// kind, and the same roots and leaves.
    pub open spec fn copy_of(&self, other: &Self) -> bool {
        &&& self.cids() == other.cids()
        &&& self.arcs() == other.arcs()
        &&& self.root_seq() == other.root_seq()
        &&& self.leaf_seq() == other.leaf_seq()
        &&& self.edge_seq().len() == other.edge_seq().len()
        &&& forall|i: int|
            0 <= i < self.node_seq().len() ==> (#[trigger] self.node_seq()[i]).timestamp
                == other.node_seq()[i].timestamp && cloned(
                other.node_seq()[i].content,
                self.node_seq()[i].content,
            )
        &&& forall|j: int|
            0 <= j < self.edge_seq().len() ==> (#[trigger] self.edge_seq()[j]).edge_type
                == other.edge_seq()[j].edge_type
    }
}

impl<T: Clone> Clone for CidDag<T> {
    fn clone(&self) -> (r: Self)
        ensures
            r.copy_of(self),
            self.wf() ==> r.wf(),
    {
        let mut nodes: Vec<CidNode<T>> = Vec::new();
        let mut i: usize = 0;
        while i < self.nodes.len()
            invariant
                i <= self.nodes@.len(),
                nodes@.len() == i,
                forall|k: int|
                    0 <= k < i ==> (#[trigger] nodes@[k]).cid@ == self.nodes@[k].cid@
                        && nodes@[k].timestamp == self.nodes@[k].timestamp && cloned(
                        self.nodes@[k].content,
                        nodes@[k].content,
                    ),
            decreases self.nodes@.len() - i,
        {
            nodes.push(self.nodes[i].clone());
            i += 1;
        }
        let mut edges: Vec<CidEdge> = Vec::new();
        let mut j: usize = 0;
        while j < self.edges.len()
            invariant
                j <= self.edges@.len(),
                edges@.len() == j,
                forall|k: int| 0 <= k < j ==> (#[trigger] edges@[k]).edge_type == self.edges@[k].edge_type,
            decreases self.edges@.len() - j,
        {
            edges.push(self.edges[j].clone());
            j += 1;
        }
        let mut roots: Vec<ContentId> = Vec::new();
        let mut a: usize = 0;
        while a < self.roots.len()
            invariant
                a <= self.roots@.len(),
                roots@.len() == a,
                forall|k: int| 0 <= k < a ==> (#[trigger] roots@[k])@ == self.roots@[k]@,
            decreases self.roots@.len() - a,
        {
            roots.push(self.roots[a].clone());
            a += 1;
        }
        let mut leaves: Vec<ContentId> = Vec::new();
        let mut b: usize = 0;
        while b < self.leaves.len()
            invariant
                b <= self.leaves@.len(),
                leaves@.len() == b,
                forall|k: int| 0 <= k < b ==> (#[trigger] leaves@[k])@ == self.leaves@[k]@,
            decreases self.leaves@.len() - b,
        {
            leaves.push(self.leaves[b].clone());
            b += 1;
        }
        let r = CidDag { shape: dag_clone(&self.shape), nodes, edges, roots, leaves };
        proof {
            assert(r.cids() =~= self.cids());
            assert(r.root_seq() =~= self.root_seq());
            assert(r.leaf_seq() =~= self.leaf_seq());
            if self.wf() {
                assert forall|v: int| r.has_causal_parent(v) == self.has_causal_parent(v) by {
                    if r.has_causal_parent(v) {
                        let e = choose|e: int| r.causal_into(e, v);
                        assert(self.causal_into(e, v));
                    }
                    if self.has_causal_parent(v) {
                        let e = choose|e: int| self.causal_into(e, v);
                        assert(r.causal_into(e, v));
                    }
                }
                assert forall|v: int| r.has_causal_child(v) == self.has_causal_child(v) by {
                    if r.has_causal_child(v) {
                        let e = choose|e: int| r.causal_out_of(e, v);
                        assert(self.causal_out_of(e, v));
                    }
                    if self.has_causal_child(v) {
                        let e = choose|e: int| self.causal_out_of(e, v);
                        assert(r.causal_out_of(e, v));
                    }
                }
                assert forall|c: Seq<u8>| #[trigger] r.root_seq().contains(c) <==> r.is_root(c) by {
                    assert(self.root_seq().contains(c) <==> self.is_root(c));
                }
                assert forall|c: Seq<u8>| #[trigger] r.leaf_seq().contains(c) <==> r.is_leaf(c) by {
                    assert(self.leaf_seq().contains(c) <==> self.is_leaf(c));
                }
            }
        }
        r
    }
}

/// The node carries the identifier as a component.
pub open spec fn carries_cid<T>(e: NodeEntry<CidNode<T>>, c: Seq<u8>) -> bool {
    e.components@.contains_key(type_key::<CidReference>()) && exists|x: CidReference|
        e.components@[type_key::<CidReference>()] == boxed(x) && x.0@ == c
}

impl<T: Clone> CidDag<T> {
    /// `g` shows the graph: node for node a copy of the node, with its
    /// identifier as a component, and edge for edge an edge of the same kind
    /// between the same nodes.
    pub open spec fn shown_by(&self, g: &ContextGraph<CidNode<T>, CidEdge>) -> bool {
        &&& g.wf()
        &&& g.node_seq().len() == self.node_seq().len()
        &&& g.edge_seq().len() == self.edge_seq().len()
        &&& forall|i: int|
            0 <= i < g.node_seq().len() ==> (#[trigger] g.node_seq()[i]).value.cid@
                == self.cids()[i] && g.node_seq()[i].value.timestamp == self.node_seq()[i].timestamp
                && cloned(self.node_seq()[i].content, g.node_seq()[i].value.content) && carries_cid(
                g.node_seq()[i],
                self.cids()[i],
            )
        &&& g.links() == relabel(g.node_ids(), self.arcs())
        &&& forall|j: int|
            0 <= j < g.edge_seq().len() ==> (#[trigger] g.edge_seq()[j]).value.edge_type
                == self.edge_seq()[j].edge_type
    }

    /// A context graph named "CID DAG" that shows the graph.
    pub fn to_context_graph(&self) -> (g: ContextGraph<CidNode<T>, CidEdge>)
        requires
            self.wf(),
        ensures
            self.shown_by(&g),
    {
        let mut g: ContextGraph<CidNode<T>, CidEdge> = ContextGraph::new("CID DAG");
        let mut ids: Vec<NodeId> = Vec::new();
        let mut i: usize = 0;
        while i < self.nodes.len()
            invariant
                self.wf(),
                g.wf(),
                i <= self.nodes@.len(),
                g.node_seq().len() == i,
                g.edge_seq().len() == 0,
                g.invariants@.len() == 0,
                ids@ == g.node_ids(),
                forall|k: int|
                    0 <= k < i ==> (#[trigger] g.node_seq()[k]).value.cid@ == self.cids()[k]
                        && g.node_seq()[k].value.timestamp == self.node_seq()[k].timestamp && cloned(
                        self.node_seq()[k].content,
                        g.node_seq()[k].value.content,
                    ) && carries_cid(g.node_seq()[k], self.cids()[k]),
            decreases self.nodes@.len() - i,
        {
            let ghost g0 = g;
            let copy = self.nodes[i].clone();
            let id = g.add_node(copy);
            ids.push(id);
            let ghost g1 = g;
            proof {
                assert(g1.node_ids()[i as int] == id);
                assert(g1.node_ids().index_of(id) == i);
                assert(ids@ =~= g1.node_ids()) by {
                    assert forall|k: int| 0 <= k < i implies g1.node_ids()[k] == g0.node_ids()[k] by {
                        assert(g1.node_seq().drop_last()[k] == g0.node_seq()[k]);
                    }
                }
            }
            let tag = CidReference(self.nodes[i].cid.clone());
            match g.get_node_mut(id) {
                Some(entry) => {
                    let _ = entry.add_component(tag);
                },
                None => {},
            }
            proof {
                assert(g.node_ids() =~= g1.node_ids());
                assert forall|k: int| 0 <= k < i implies g.node_seq()[k] == g0.node_seq()[k] by {
                    assert(g1.node_seq().drop_last()[k] == g0.node_seq()[k]);
                }
                assert(carries_cid(g.node_seq()[i as int], self.cids()[i as int])) by {
                    assert(g.node_seq()[i as int].components@[type_key::<CidReference>()] == boxed(
                        tag,
                    ));
                }
            }
            i += 1;
        }
        let ghost shown = g;
        let mut j: usize = 0;
        while j < self.edges.len()
            invariant
                self.wf(),
                g.wf(),
                j <= self.edges@.len(),
                g.node_seq() == shown.node_seq(),
                g.node_seq().len() == self.node_seq().len(),
                g.invariants@.len() == 0,
                ids@ == g.node_ids(),
                g.edge_seq().len() == j,
                forall|k: int|
                    0 <= k < j ==> (#[trigger] g.edge_seq()[k]).source == ids@[self.arcs()[k].0]
                        && g.edge_seq()[k].target == ids@[self.arcs()[k].1]
                        && g.edge_seq()[k].value.edge_type == self.edge_seq()[k].edge_type,
            decreases self.edges@.len() - j,
        {
            let ghost g0 = g;
            match dag_arc_ends(&self.shape, j) {
                Some(ends) => {
                    proof {
                        assert(0 <= self.arcs()[j as int].0 < self.node_seq().len());
                        assert(0 <= self.arcs()[j as int].1 < self.node_seq().len());
                        assert(g.node_ids()[ends.0 as int] == ids@[ends.0 as int]);
                        assert(g.node_ids()[ends.1 as int] == ids@[ends.1 as int]);
                    }
                    let added = g.add_edge(ids[ends.0], ids[ends.1], self.edges[j].clone());
                    proof {
                        assert(added is Ok);
                        assert(g.node_ids() =~= g0.node_ids());
                        assert forall|k: int| 0 <= k < j implies g.edge_seq()[k] == g0.edge_seq()[k] by {
                            assert(g.edge_seq().drop_last()[k] == g0.edge_seq()[k]);
                        }
                    }
                },
                None => {},
            }
            j += 1;
        }
        proof {
            assert(g.links() =~= relabel(g.node_ids(), self.arcs()));
        }
        g
    }
}

/// The event is one of the aggregate.
pub open spec fn is_event_of(e: EventNode, aggregate_id: Seq<char>) -> bool {
    e.aggregate_id@ == aggregate_id
}

/// The event at position `a` comes before the one at position `b`: it has
/// the lower sequence number, or the same and was added first.
pub open spec fn comes_before(nodes: Seq<CidNode<EventNode>>, a: int, b: int) -> bool {
    nodes[a].content.sequence < nodes[b].content.sequence || (nodes[a].content.sequence
        == nodes[b].content.sequence && a < b)
}

/// Puts the position `v`, beyond all those in `order`, at its place.
fn place(nodes: &Vec<CidNode<EventNode>>, order: &mut Vec<usize>, v: usize)
    requires
        v < nodes@.len(),
        forall|i: int| 0 <= i < old(order)@.len() ==> (#[trigger] old(order)@[i]) < v,
        forall|i: int, j: int|
            0 <= i < j < old(order)@.len() ==> comes_before(
                nodes@,
                #[trigger] old(order)@[i] as int,
                #[trigger] old(order)@[j] as int,
            ),
    ensures
        final(order)@.len() == old(order)@.len() + 1,
        final(order)@.contains(v),
        forall|w: usize| old(order)@.contains(w) ==> final(order)@.contains(w),
        forall|i: int|
            0 <= i < final(order)@.len() ==> (#[trigger] final(order)@[i]) == v || old(
                order,
            )@.contains(final(order)@[i]),
        forall|i: int, j: int|
            0 <= i < j < final(order)@.len() ==> comes_before(
                nodes@,
                #[trigger] final(order)@[i] as int,
                #[trigger] final(order)@[j] as int,
            ),
{
    let key = nodes[v].content.sequence;
    let mut t: usize = 0;
    while t < order.len() && nodes[order[t]].content.sequence <= key
        invariant
            t <= order@.len(),
            forall|i: int| 0 <= i < order@.len() ==> (#[trigger] order@[i]) < v,
            v < nodes@.len(),
            key == nodes@[v as int].content.sequence,
            forall|i: int| 0 <= i < t ==> nodes@[#[trigger] order@[i] as int].content.sequence <= key,
        decreases order@.len() - t,
    {
        t += 1;
    }
    let ghost before = order@;
    order.insert(t, v);
    proof {
        assert(order@[t as int] == v);
        assert forall|w: usize| before.contains(w) implies order@.contains(w) by {
            let i = choose|i: int| 0 <= i < before.len() && before[i] == w;
            if i < t {
                assert(order@[i] == w);
            } else {
                assert(order@[i + 1] == w);
            }
        }
        assert forall|i: int| 0 <= i < order@.len() implies (#[trigger] order@[i]) == v
            || before.contains(order@[i]) by {
            if i < t {
                assert(before[i] == order@[i]);
            } else if i > t {
                assert(before[i - 1] == order@[i]);
            }
        }
        assert forall|i: int, j: int| 0 <= i < j < order@.len() implies comes_before(
            nodes@,
            #[trigger] order@[i] as int,
            #[trigger] order@[j] as int,
        ) by {
            if i == t {
                assert(order@[j] == before[j - 1]);
                assert(comes_before(nodes@, before[t as int] as int, before[j - 1] as int) || j - 1
                    == t);
                assert(nodes@[before[t as int] as int].content.sequence > key);
            } else if j == t {
                assert(order@[i] == before[i]);
                assert(nodes@[before[i] as int].content.sequence <= key);
                assert(before[i] < v);
            } else {
                let i0 = if i < t { i } else { i - 1 };
                let j0 = if j < t { j } else { j - 1 };
                assert(order@[i] == before[i0]);
                assert(order@[j] == before[j0]);
            }
        }
    }
}

impl CidDag<EventNode> {
    /// What adding an event makes of `self`: `DuplicateCid` and no change
    /// where a node has the identifier; else the node is added, then, where
    /// `previous` is given, a causal edge from it to the node, and, where
    /// that edge cannot be added, the error why, the node left in place;
    /// then, where the event names a payload, a reference edge from the
    /// node to it, where one can be added.
    pub open spec fn event_added(
        &self,
        after: &Self,
        cid: Seq<u8>,
        previous: Option<Seq<u8>>,
        event: EventNode,
        timestamp: u64,
        r: Result<(), GraphError>,
    ) -> bool {
        if self.contains(cid) {
            &&& self.added_node(after, cid, event, timestamp, r)
            &&& after.arcs() == self.arcs()
            &&& after.edge_seq() == self.edge_seq()
        } else {
            exists|g1: Self, g2: Self|
                #[trigger] self.event_steps(&g1, &g2, after, cid, previous, event, timestamp, r)
        }
    }

    /// The steps of adding an event to a graph without a node of its
    /// identifier: `g1` is the graph with the node, `g2` the graph after the
    /// causal edge was tried, `after` the graph in the end.
    pub open spec fn event_steps(
        &self,
        g1: &Self,
        g2: &Self,
        after: &Self,
        cid: Seq<u8>,
        previous: Option<Seq<u8>>,
        event: EventNode,
        timestamp: u64,
        r: Result<(), GraphError>,
    ) -> bool {
        &&& self.added_node(g1, cid, event, timestamp, Ok(()))
        &&& g1.arcs() == self.arcs()
        &&& g1.edge_seq() == self.edge_seq()
        &&& match previous {
            Some(p) => g1.after_link(g2, p, cid, CidEdgeType::Causal),
            None => *g2 == *g1,
        }
        &&& if previous is Some && !g1.can_link(previous->0, cid) {
            &&& *after == *g2
            &&& r is Err
            &&& if g1.contains(previous->0) {
                r->Err_0 is CycleDetected
            } else {
                r->Err_0 is CidNotFound && r->Err_0->CidNotFound_0@ == previous->0
            }
        } else {
            &&& r is Ok
            &&& match event.payload_cid {
                Some(q) => g2.after_link(after, cid, q@, CidEdgeType::Reference),
                None => *after == *g2,
            }
        }
    }

    /// Adds an event: its node, a causal edge from the previous event where
    /// one is given, and a reference edge to its payload where it names one
    /// that is in the graph.
    pub fn add_event(
        &mut self,
        event_cid: ContentId,
        previous_cid: Option<ContentId>,
        event: EventNode,
        timestamp: u64,
    ) -> (r: Result<(), GraphError>)
        requires
            old(self).wf(),
        ensures
            final(self).wf(),
            old(self).event_added(
                final(self),
                event_cid@,
                match previous_cid {
                    Some(p) => Some(p@),
                    None => None,
                },
                event,
                timestamp,
                r,
            ),
    {
        let ghost g0 = *self;
        let payload = match &event.payload_cid {
            Some(q) => Some(q.clone()),
            None => None,
        };
        let from_here = event_cid.clone();
        let to_here = event_cid.clone();
        match self.add_node(event_cid, event, timestamp) {
            Ok(()) => {},
            Err(e) => {
                return Err(e);
            },
        }
        let ghost g1 = *self;
        proof {
            assert(g1.cids()[g1.node_seq().len() - 1] == event_cid@);
            assert(g1.contains(event_cid@));
        }
        let ghost mut linked_as: Result<(), GraphError> = Ok(());
        match previous_cid {
            Some(prev) => {
                let tried = self.add_causal_edge(prev, to_here);
                proof {
                    linked_as = tried;
                }
                match tried {
                    Ok(()) => {},
                    Err(e) => {
                        proof {
                            assert(g1.linked(&*self, prev@, event_cid@, CidEdgeType::Causal, tried));
                            assert(g1.after_link(&*self, prev@, event_cid@, CidEdgeType::Causal));
                            assert(g0.added_node(&g1, event_cid@, event, timestamp, Ok(())));
                            assert(g0.event_steps(
                                &g1,
                                &*self,
                                &*self,
                                event_cid@,
                                Some(prev@),
                                event,
                                timestamp,
                                Err(e),
                            ));
                        }
                        return Err(e);
                    },
                }
            },
            None => {},
        }
        let ghost g2 = *self;
        let ghost mut referred_as: Result<(), GraphError> = Ok(());
        match payload {
            Some(q) => {
                let tried = self.add_reference(from_here, q);
                proof {
                    referred_as = tried;
                }
            },
            None => {},
        }
        proof {
            assert(g0.added_node(&g1, event_cid@, event, timestamp, Ok(())));
            if previous_cid is Some {
                assert(g1.linked(
                    &g2,
                    previous_cid->0@,
                    event_cid@,
                    CidEdgeType::Causal,
                    linked_as,
                ));
                assert(g1.after_link(&g2, previous_cid->0@, event_cid@, CidEdgeType::Causal));
                assert(g1.can_link(previous_cid->0@, event_cid@));
            }
            if event.payload_cid is Some {
                assert(g2.linked(
                    &*self,
                    event_cid@,
                    event.payload_cid->0@,
                    CidEdgeType::Reference,
                    referred_as,
                ));
                assert(g2.after_link(&*self, event_cid@, event.payload_cid->0@, CidEdgeType::Reference));
            }
            assert(g0.event_steps(
                &g1,
                &g2,
                &*self,
                event_cid@,
                match previous_cid {
                    Some(p) => Some(p@),
                    None => None,
                },
                event,
                timestamp,
                Ok(()),
            ));
        }
        Ok(())
    }

    /// `out` lists the events of the aggregate, each once with its
    /// identifier, by ascending sequence number, those of one sequence
    /// number in the order in which they were added.
    pub open spec fn lists_events(
        &self,
        out: Seq<(ContentId, &EventNode)>,
        aggregate_id: Seq<char>,
    ) -> bool {
        &&& forall|i: int|
            0 <= i < out.len() ==> self.contains((#[trigger] out[i]).0@) && *out[i].1 == self.node(
                out[i].0@,
            ).content && is_event_of(*out[i].1, aggregate_id)
        &&& forall|c: Seq<u8>|
            self.contains(c) && is_event_of(#[trigger] self.node(c).content, aggregate_id)
                ==> exists|i: int| 0 <= i < out.len() && out[i].0@ == c
        &&& forall|i: int, j: int|
            0 <= i < j < out.len() ==> out[i].1.sequence < out[j].1.sequence || (out[i].1.sequence
                == out[j].1.sequence && self.cids().index_of(out[i].0@) < self.cids().index_of(
                out[j].0@,
            ))
    }

    /// The events of the aggregate with their identifiers, by ascending
    /// sequence number.
    pub fn get_aggregate_events(&self, aggregate_id: &str) -> (r: Vec<(ContentId, &EventNode)>)
        requires
            self.wf(),
        ensures
            self.lists_events(r@, aggregate_id@),
    {
        let wanted = aggregate_id.to_owned();
        let mut order: Vec<usize> = Vec::new();
        let mut v: usize = 0;
        while v < self.nodes.len()
            invariant
                wanted@ == aggregate_id@,
                v <= self.nodes@.len(),
                forall|i: int|
                    0 <= i < order@.len() ==> (#[trigger] order@[i]) < v && is_event_of(
                        self.nodes@[order@[i] as int].content,
                        aggregate_id@,
                    ),
                forall|w: int|
                    0 <= w < v && is_event_of(#[trigger] self.nodes@[w].content, aggregate_id@)
                        ==> order@.contains(w as usize),
                forall|i: int, j: int|
                    0 <= i < j < order@.len() ==> comes_before(
                        self.nodes@,
                        #[trigger] order@[i] as int,
                        #[trigger] order@[j] as int,
                    ),
            decreases self.nodes@.len() - v,
        {
            if self.nodes[v].content.aggregate_id == wanted {
                let ghost before = order@;
                place(&self.nodes, &mut order, v);
                proof {
                    assert forall|i: int| 0 <= i < order@.len() implies (#[trigger] order@[i]) < v
                        + 1 && is_event_of(self.nodes@[order@[i] as int].content, aggregate_id@) by {
                        if order@[i] != v {
                            assert(before.contains(order@[i]));
                            let k = choose|k: int| 0 <= k < before.len() && before[k] == order@[i];
                            assert(before[k] < v);
                        }
                    }
                }
            }
            v += 1;
        }
        let mut r: Vec<(ContentId, &EventNode)> = Vec::new();
        let mut k: usize = 0;
        while k < order.len()
            invariant
                k <= order@.len(),
                r@.len() == k,
                forall|i: int| 0 <= i < order@.len() ==> (#[trigger] order@[i]) < self.nodes@.len(),
                forall|i: int|
                    0 <= i < k ==> (#[trigger] r@[i]).0@ == self.nodes@[order@[i] as int].cid@
                        && *r@[i].1 == self.nodes@[order@[i] as int].content,
            decreases order@.len() - k,
        {
            r.push((self.nodes[order[k]].cid.clone(), &self.nodes[order[k]].content));
            k += 1;
        }
        proof {
            let ids = self.cids();
            assert forall|i: int| 0 <= i < r@.len() implies ids.index_of((#[trigger] r@[i]).0@)
                == order@[i] && self.contains(r@[i].0@) by {
                assert(ids[order@[i] as int] == r@[i].0@);
            }
            assert forall|i: int, j: int| 0 <= i < j < r@.len() implies r@[i].1.sequence
                < r@[j].1.sequence || (r@[i].1.sequence == r@[j].1.sequence && ids.index_of(r@[i].0@)
                < ids.index_of(r@[j].0@)) by {
                assert(comes_before(self.nodes@, order@[i] as int, order@[j] as int));
                assert(ids.index_of(r@[i].0@) == order@[i]);
                assert(ids.index_of(r@[j].0@) == order@[j]);
            }
            assert forall|c: Seq<u8>|
                self.contains(c) && is_event_of(
                    #[trigger] self.node(c).content,
                    aggregate_id@,
                ) implies exists|i: int| 0 <= i < r@.len() && r@[i].0@ == c by {
                let w = ids.index_of(c);
                assert(ids[w] == c);
                assert(is_event_of(self.nodes@[w].content, aggregate_id@));
                assert(order@.contains(w as usize));
                let i = choose|i: int| 0 <= i < order@.len() && order@[i] == w as usize;
                assert(r@[i].0@ == c);
            }
        }
        r
    }
}

impl CidDag<ObjectNode> {
    /// `after` is `before` with a reference edge from `cid` to each of the
    /// chunks, in their order, where such an edge could be added.
    pub open spec fn chunks_linked(
        before: Self,
        after: Self,
        cid: Seq<u8>,
        chunks: Seq<Seq<u8>>,
    ) -> bool
        decreases chunks.len(),
    {
        if chunks.len() == 0 {
            after == before
        } else {
            exists|mid: Self|
                Self::chunks_linked(before, mid, cid, chunks.drop_last()) && #[trigger] mid.after_link(
                    &after,
                    cid,
                    chunks.last(),
                    CidEdgeType::Reference,
                )
        }
    }

    /// What adding an object makes of `self`: `DuplicateCid` and no change
    /// where a node has the identifier; else the node is added, and a
    /// reference edge from it to each of its chunks that is in the graph.
    pub open spec fn object_added(
        &self,
        after: &Self,
        cid: Seq<u8>,
        object: ObjectNode,
        timestamp: u64,
        r: Result<(), GraphError>,
    ) -> bool {
        if self.contains(cid) {
            &&& self.added_node(after, cid, object, timestamp, r)
            &&& after.arcs() == self.arcs()
            &&& after.edge_seq() == self.edge_seq()
        } else {
            &&& r is Ok
            &&& exists|g1: Self|
                #[trigger] self.added_node(&g1, cid, object, timestamp, Ok(())) && g1.arcs()
                    == self.arcs() && g1.edge_seq() == self.edge_seq() && Self::chunks_linked(
                    g1,
                    *after,
                    cid,
                    views(object.chunks@),
                )
        }
    }

    /// Adds an object: its node, and a reference edge to each of its chunks
    /// that is in the graph.
    pub fn add_object(&mut self, object_cid: ContentId, object: ObjectNode, timestamp: u64) -> (r:
        Result<(), GraphError>)
        requires
            old(self).wf(),
        ensures
            final(self).wf(),
            old(self).object_added(final(self), object_cid@, object, timestamp, r),
    {
        let ghost g0 = *self;
        let mut chunks: Vec<ContentId> = Vec::new();
        let mut i: usize = 0;
        while i < object.chunks.len()
            invariant
                i <= object.chunks@.len(),
                chunks@.len() == i,
                forall|j: int| 0 <= j < i ==> chunks@[j]@ == object.chunks@[j]@,
            decreases object.chunks@.len() - i,
        {
            chunks.push(object.chunks[i].clone());
            i += 1;
        }
        let from_here = object_cid.clone();
        match self.add_node(object_cid, object, timestamp) {
            Ok(()) => {},
            Err(e) => {
                return Err(e);
            },
        }
        let ghost g1 = *self;
        let ghost all = views(object.chunks@);
        let mut k: usize = 0;
        while k < chunks.len()
            invariant
                self.wf(),
                k <= chunks@.len(),
                from_here@ == object_cid@,
                views(chunks@) == all,
                Self::chunks_linked(g1, *self, object_cid@, all.take(k as int)),
            decreases chunks@.len() - k,
        {
            let ghost mid = *self;
            let tried = self.add_reference(from_here.clone(), chunks[k].clone());
            proof {
                assert(all.take(k as int + 1).drop_last() =~= all.take(k as int));
                assert(all[k as int] == chunks@[k as int]@);
                assert(all.take(k as int + 1).last() == chunks@[k as int]@);
                assert(Self::chunks_linked(g1, mid, object_cid@, all.take(k as int + 1).drop_last()));
                assert(mid.linked(
                    &*self,
                    object_cid@,
                    all.take(k as int + 1).last(),
                    CidEdgeType::Reference,
                    tried,
                ));
                assert(mid.after_link(
                    &*self,
                    object_cid@,
                    all.take(k as int + 1).last(),
                    CidEdgeType::Reference,
                ));
                assert(Self::chunks_linked(g1, *self, object_cid@, all.take(k as int + 1)));
            }
            k += 1;
        }
        proof {
            assert(views(chunks@) =~= all);
            assert(all.take(k as int) =~= all);
            assert(g0.added_node(&g1, object_cid@, object, timestamp, Ok(())));
        }
        Ok(())
    }

    /// The chunks that the object names; none for an unknown identifier.
    pub fn get_object_chunks(&self, object_cid: &ContentId) -> (r: Vec<ContentId>)
        requires
            self.wf(),
        ensures
            views(r@) == if self.contains(object_cid@) {
                views(self.node(object_cid@).content.chunks@)
            } else {
                Seq::<Seq<u8>>::empty()
            },
    {
        let mut r: Vec<ContentId> = Vec::new();
        match self.get_node(object_cid) {
            Some(node) => {
                let mut i: usize = 0;
                while i < node.content.chunks.len()
                    invariant
                        i <= node.content.chunks@.len(),
                        r@.len() == i,
                        forall|j: int| 0 <= j < i ==> r@[j]@ == node.content.chunks@[j]@,
                    decreases node.content.chunks@.len() - i,
                {
                    r.push(node.content.chunks[i].clone());
                    i += 1;
                }
                assert(views(r@) =~= views(node.content.chunks@));
            },
            None => {
                assert(views(r@) =~= Seq::<Seq<u8>>::empty());
            },
        }
        r
    }
}

} // verus!
