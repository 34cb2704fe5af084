//! The workflow graph: states joined by transitions, each transition with a
//! value by which the transitions out of a state are ranked.

use petgraph::stable_graph::StableGraph;
use petgraph::Directed;
use std::sync::Arc;
use vstd::prelude::*;

use crate::stable_shape::stable_add_arc;
use crate::stable_shape::stable_add_node;
use crate::stable_shape::stable_arcs;
use crate::stable_shape::stable_in_degree;
use crate::stable_shape::stable_new;
use crate::stable_shape::stable_nodes;
use crate::stable_shape::stable_out_arcs;
use crate::stable_shape::stable_reach;
use crate::types::concat;
use crate::types::now_millis;
use crate::types::GraphId;
use crate::walks::all_positions;
use crate::walks::arcs_in_range;
use crate::walks::ends_at;
use crate::walks::reachable;
use crate::workflow::EnrichmentType;
use crate::workflow::EnrichmentValue;
use crate::workflow::StateId;
use crate::workflow::TransitionInput;
use crate::workflow::TransitionOutput;
use crate::workflow::WorkflowContext;
use crate::workflow::WorkflowState;
use crate::workflow::WorkflowTransition;
use crate::workflow::WorkflowType;

verus! {

/// What a workflow graph says of itself.
#[derive(Debug, Clone)]
pub struct WorkflowMetadata {
    pub name: String,
    pub description: String,
    pub version: String,
    pub workflow_type: WorkflowType,
    pub enrichment_type: EnrichmentType,
    /// When the graph was made, in milliseconds since 1970.
    pub created_at: i64,
    /// When the graph was changed last, in milliseconds since 1970.
    pub updated_at: i64,
    pub tags: Vec<String>,
}

impl WorkflowMetadata {
    /// All is as in `other`, but, it may be, the time of the last change.
    pub open spec fn same_but_updated(&self, other: &WorkflowMetadata) -> bool {
        &&& self.name == other.name
        &&& self.description == other.description
        &&& self.version == other.version
        &&& self.workflow_type == other.workflow_type
        &&& self.enrichment_type == other.enrichment_type
        &&& self.created_at == other.created_at
        &&& self.tags == other.tags
    }
}

/// What can go wrong in a workflow graph.
#[derive(Debug)]
pub enum WorkflowGraphError {
    StateNotFound(StateId),
    NoInitialState,
    NoTerminalState,
    UnreachableStates { total: usize, reachable: usize },
    InvalidTransition(String),
}

/// The decimal digits of `n`, the highest first, without leading zeros.
pub open spec fn decimal_text(n: usize) -> Seq<char>
    decreases n,
{
    if n < 10 {
        seq!["0123456789"@[n as int]]
    } else {
        decimal_text((n / 10) as usize).push("0123456789"@[(n % 10) as int])
    }
}

/// `usize::to_string`: the number in decimal digits, the highest first,
/// without sign and without leading zeros.
#[verifier::external_body]
fn number_text(n: usize) -> (r: String)
    ensures
        r@ == decimal_text(n),
{
    n.to_string()
}

impl WorkflowGraphError {
    /// The message of the error.
    pub open spec fn message(&self) -> Seq<char> {
        match self {
            WorkflowGraphError::StateNotFound(id) => "State not found: "@ + id@,
            WorkflowGraphError::NoInitialState => "No initial state found in workflow"@,
            WorkflowGraphError::NoTerminalState => "No terminal state found in workflow"@,
            WorkflowGraphError::UnreachableStates { total, reachable } =>
                "Unreachable states detected: "@ + decimal_text(*reachable) + " of "@ + decimal_text(
                    *total,
                ) + " states are reachable"@,
            WorkflowGraphError::InvalidTransition(s) => "Invalid transition: "@ + s@,
        }
    }

    /// The message of the error as a string.
    pub fn to_string(&self) -> (r: String)
        ensures
            r@ == self.message(),
    {
        match self {
            WorkflowGraphError::StateNotFound(id) => concat("State not found: ", id.0.as_str()),
            WorkflowGraphError::NoInitialState => "No initial state found in workflow".to_owned(),
            WorkflowGraphError::NoTerminalState => "No terminal state found in workflow".to_owned(),
            WorkflowGraphError::UnreachableStates { total, reachable } => {
                let a = concat("Unreachable states detected: ", number_text(*reachable).as_str());
                let b = concat(a.as_str(), " of ");
                let c = concat(b.as_str(), number_text(*total).as_str());
                concat(c.as_str(), " states are reachable")
            },
            WorkflowGraphError::InvalidTransition(s) => concat("Invalid transition: ", s.as_str()),
        }
    }
}

/// A transition whose type has been erased.
///
/// Holds an `Arc<dyn WorkflowTransition<S, I, O>>`; `step_source`,
/// `step_target`, `step_accepts` and `step_guard` say what the transition in
/// it answers.
#[verifier::reject_recursive_types(S)]
#[verifier::reject_recursive_types(I)]
#[verifier::reject_recursive_types(O)]
pub struct TransitionBox<S, I, O> {
    inner: Arc<dyn WorkflowTransition<S, I, O>>,
}

/// The state that the transition leaves.
pub closed spec fn step_source<S, I, O>(b: TransitionBox<S, I, O>) -> S {
    b.inner.spec_source()
}

/// The state that the transition enters.
pub closed spec fn step_target<S, I, O>(b: TransitionBox<S, I, O>) -> S {
    b.inner.spec_target()
}

/// Whether the transition takes the input.
pub closed spec fn step_accepts<S, I, O>(b: TransitionBox<S, I, O>, input: &I) -> bool {
    b.inner.spec_accepts(input)
}

/// Whether the guard of the transition passes in the context.
pub closed spec fn step_guard<S, I, O>(b: TransitionBox<S, I, O>, context: &WorkflowContext) -> bool {
    b.inner.spec_guard(context)
}

/// `Arc::new` and the coercion to the trait object, which the verifier does
/// not take: the box answers as the transition in it does.
#[verifier::external_body]
fn erase_transition<S, I, O, T: WorkflowTransition<S, I, O> + 'static>(t: T) -> (b: TransitionBox<
    S,
    I,
    O,
>)
    ensures
        step_source(b) == t.spec_source(),
        step_target(b) == t.spec_target(),
        forall|input: &I| #[trigger] step_accepts(b, input) == t.spec_accepts(input),
        forall|context: &WorkflowContext| #[trigger] step_guard(b, context) == t.spec_guard(context),
{
    TransitionBox { inner: Arc::new(t) }
}

impl<S, I, O> TransitionBox<S, I, O> {
    /// Erases the type of the transition.
    pub fn new<T: WorkflowTransition<S, I, O> + 'static>(transition: T) -> (b: Self)
        ensures
            step_source(b) == transition.spec_source(),
            step_target(b) == transition.spec_target(),
            forall|input: &I| #[trigger] step_accepts(b, input) == transition.spec_accepts(input),
            forall|context: &WorkflowContext| #[trigger]
                step_guard(b, context) == transition.spec_guard(context),
    {
        erase_transition(transition)
    }

    /// The state that the transition leaves.
    pub fn source(&self) -> (r: &S)
        ensures
            *r == step_source(*self),
    {
        self.inner.source()
    }

    /// The state that the transition enters.
    pub fn target(&self) -> (r: &S)
        ensures
            *r == step_target(*self),
    {
        self.inner.target()
    }

    /// Whether the transition takes the input.
    pub fn accepts_input(&self, input: &I) -> (r: bool)
        ensures
            r == step_accepts(*self, input),
    {
        self.inner.accepts_input(input)
    }

    /// Whether the guard of the transition passes in the context.
    pub fn guard(&self, context: &WorkflowContext) -> (r: bool)
        ensures
            r == step_guard(*self, context),
    {
        self.inner.guard(context)
    }
}

/// The states and transitions of a workflow, with the shape kept for walking
/// it.
#[verifier::reject_recursive_types(S)]
#[verifier::reject_recursive_types(I)]
#[verifier::reject_recursive_types(O)]
pub struct WorkflowStore<S, I, O, V> {
    shape: StableGraph<(), (), Directed, usize>,
    states: Vec<S>,
    state_ids: Vec<StateId>,
    transitions: Vec<TransitionBox<S, I, O>>,
    values: Vec<V>,
}

/// A workflow: states, transitions between them, and for each transition a
/// value.
#[verifier::reject_recursive_types(S)]
#[verifier::reject_recursive_types(I)]
#[verifier::reject_recursive_types(O)]
pub struct WorkflowGraph<S, I, O, V> {
    pub id: GraphId,
    pub metadata: WorkflowMetadata,
    pub store: WorkflowStore<S, I, O, V>,
}

/// The positions in ascending order.
fn sort_positions(v: Vec<usize>) -> (r: Vec<usize>)
    requires
        v@.no_duplicates(),
    ensures
        forall|i: int, j: int| 0 <= i < j < r@.len() ==> r@[i] < r@[j],
        forall|x: usize| r@.contains(x) <==> v@.contains(x),
{
    let mut r: Vec<usize> = Vec::new();
    let mut k: usize = 0;
    while k < v.len()
        invariant
            v@.no_duplicates(),
            k <= v@.len(),
            forall|i: int, j: int| 0 <= i < j < r@.len() ==> r@[i] < r@[j],
            forall|x: usize| r@.contains(x) <==> exists|i: int| 0 <= i < k && v@[i] == x,
        decreases v@.len() - k,
    {
        let x = v[k];
        let mut t: usize = 0;
        while t < r.len() && r[t] < x
            invariant
                t <= r@.len(),
                forall|i: int| 0 <= i < t ==> r@[i] < x,
            decreases r@.len() - t,
        {
            t += 1;
        }
        let ghost before = r@;
        proof {
            assert(!before.contains(x)) by {
                if before.contains(x) {
                    let i = choose|i: int| 0 <= i < k && v@[i] == x;
                    assert(v@[i] == v@[k as int]);
                }
            }
            if t < before.len() {
                assert(before.contains(before[t as int]));
            }
        }
        r.insert(t, x);
        proof {
            assert forall|i: int, j: int| 0 <= i < j < r@.len() implies r@[i] < r@[j] by {
                let i0 = if i < t { i } else { i - 1 };
                let j0 = if j < t { j } else { j - 1 };
                if i == t {
                    assert(r@[j] == before[j0]);
                    assert(before[t as int] >= x);
                    assert(before.contains(before[t as int]));
                } else if j == t {
                    assert(r@[i] == before[i0]);
                } else {
                    assert(r@[i] == before[i0]);
                    assert(r@[j] == before[j0]);
                }
            }
            assert forall|y: usize| r@.contains(y) <==> exists|i: int| 0 <= i < k + 1 && v@[i] == y by {
                if r@.contains(y) {
                    let j = choose|j: int| 0 <= j < r@.len() && r@[j] == y;
                    if j == t {
                        assert(v@[k as int] == y);
                    } else {
                        let j0 = if j < t { j } else { j - 1 };
                        assert(before[j0] == y);
                        assert(before.contains(y));
                    }
                }
                if exists|i: int| 0 <= i < k + 1 && v@[i] == y {
                    let i = choose|i: int| 0 <= i < k + 1 && v@[i] == y;
                    if i == k {
                        assert(r@[t as int] == y);
                    } else {
                        assert(before.contains(y));
                        let j0 = choose|j0: int| 0 <= j0 < before.len() && before[j0] == y;
                        let j = if j0 < t { j0 } else { j0 + 1 };
                        assert(r@[j] == y);
                    }
                }
            }
        }
        k += 1;
    }
    proof {
        assert forall|x: usize| r@.contains(x) <==> v@.contains(x) by {
            if v@.contains(x) {
                let i = choose|i: int| 0 <= i < v@.len() && v@[i] == x;
            }
        }
    }
    r
}

/// The position of the best of the first `k` values: each later value takes
/// the place of the best so far unless that is better than it.
pub open spec fn best_of<V: EnrichmentValue>(values: Seq<V>, k: nat) -> int
    decreases k,
{
    if k <= 1 {
        0
    } else {
        let so_far = best_of(values, (k - 1) as nat);
        if values[so_far].spec_better(&values[k - 1]) {
            so_far
        } else {
            k - 1
        }
    }
}

impl<S: WorkflowState, I: TransitionInput, O: TransitionOutput, V: EnrichmentValue> WorkflowGraph<
    S,
    I,
    O,
    V,
> {
    /// The states, in the order in which they were added.
    pub closed spec fn state_seq(&self) -> Seq<S> {
        self.store.states@
    }

    /// The transitions, in the order in which they were added.
    pub closed spec fn transition_seq(&self) -> Seq<TransitionBox<S, I, O>> {
        self.store.transitions@
    }

    /// The values of the transitions, in the order of the transitions.
    pub closed spec fn value_seq(&self) -> Seq<V> {
        self.store.values@
    }

    /// The ends of the transitions, each the positions of its source and of
    /// its target among the states.
    pub closed spec fn arcs(&self) -> Seq<(int, int)> {
        stable_arcs(self.store.shape)
    }

    /// What is kept beside the states agrees with them.
    pub closed spec fn synced(&self) -> bool {
        &&& stable_nodes(self.store.shape) == self.store.states@.len()
        &&& self.store.state_ids@.len() == self.store.states@.len()
        &&& forall|i: int|
            0 <= i < self.store.states@.len() ==> (#[trigger] self.store.state_ids@[i])@
                == self.store.states@[i].spec_id()
    }

    /// The identities of the states.
    pub open spec fn ids(&self) -> Seq<Seq<char>> {
        Seq::new(self.state_seq().len(), |i: int| self.state_seq()[i].spec_id())
    }

    /// Whether a state has the identity.
    pub open spec fn contains(&self, id: Seq<char>) -> bool {
        self.ids().contains(id)
    }

    /// The graph is well formed: no two states share an identity, and every
    /// transition joins the states that it names.
    pub open spec fn wf(&self) -> bool {
        &&& self.synced()
        &&& self.ids().no_duplicates()
        &&& self.arcs().len() == self.transition_seq().len()
        &&& self.value_seq().len() == self.transition_seq().len()
        &&& arcs_in_range(self.state_seq().len() as int, self.arcs())
        &&& forall|e: int|
            0 <= e < self.arcs().len() ==> self.ids()[(#[trigger] self.arcs()[e]).0]
                == step_source(self.transition_seq()[e]).spec_id() && self.ids()[self.arcs()[e].1]
                == step_target(self.transition_seq()[e]).spec_id()
    }

    /// The same states and transitions.
    pub open spec fn same_store_as(&self, other: &Self) -> bool {
        &&& self.state_seq() == other.state_seq()
        &&& self.transition_seq() == other.transition_seq()
        &&& self.value_seq() == other.value_seq()
        &&& self.arcs() == other.arcs()
    }

    /// An empty workflow named "Workflow", enriched with business values.
    pub fn new(id: GraphId, workflow_type: WorkflowType) -> (g: Self)
        ensures
            g.wf(),
            g.id == id,
            g.state_seq().len() == 0,
            g.transition_seq().len() == 0,
            g.metadata.name@ == "Workflow"@,
            g.metadata.description@ == Seq::<char>::empty(),
            g.metadata.version@ == "1.0.0"@,
            g.metadata.workflow_type == workflow_type,
            g.metadata.enrichment_type == EnrichmentType::BusinessValue,
            g.metadata.tags@.len() == 0,
    {
        let metadata = WorkflowMetadata {
            name: "Workflow".to_owned(),
            description: String::new(),
            version: "1.0.0".to_owned(),
            workflow_type,
            enrichment_type: EnrichmentType::BusinessValue,
            created_at: now_millis(),
            updated_at: now_millis(),
            tags: Vec::new(),
        };
        Self::with_metadata(id, metadata)
    }

    /// An empty workflow with the metadata.
    pub fn with_metadata(id: GraphId, metadata: WorkflowMetadata) -> (g: Self)
        ensures
            g.wf(),
            g.id == id,
            g.metadata == metadata,
            g.state_seq().len() == 0,
            g.transition_seq().len() == 0,
    {
        let g = WorkflowGraph {
            id,
            metadata,
            store: WorkflowStore {
                shape: stable_new(),
                states: Vec::new(),
                state_ids: Vec::new(),
                transitions: Vec::new(),
                values: Vec::new(),
            },
        };
        proof {
            assert(g.ids() =~= Seq::<Seq<char>>::empty());
        }
        g
    }

    /// An empty workflow with a new identifier and the name, at version
    /// "1.0.0".
    pub fn new_with_name(name: String, workflow_type: WorkflowType, enrichment_type: EnrichmentType) -> (g:
        Self)
        ensures
            g.wf(),
            g.state_seq().len() == 0,
            g.transition_seq().len() == 0,
            g.metadata.name == name,
            g.metadata.description@ == Seq::<char>::empty(),
            g.metadata.version@ == "1.0.0"@,
            g.metadata.workflow_type == workflow_type,
            g.metadata.enrichment_type == enrichment_type,
            g.metadata.tags@.len() == 0,
    {
        let metadata = WorkflowMetadata {
            name,
            description: String::new(),
            version: "1.0.0".to_owned(),
            workflow_type,
            enrichment_type,
            created_at: now_millis(),
            updated_at: now_millis(),
            tags: Vec::new(),
        };
        Self::with_metadata(GraphId::new(), metadata)
    }

    /// The number of states.
    pub fn state_count(&self) -> (r: usize)
        ensures
            r == self.state_seq().len(),
    {
        self.store.states.len()
    }

    /// The number of transitions.
    pub fn transition_count(&self) -> (r: usize)
        ensures
            r == self.transition_seq().len(),
    {
        self.store.transitions.len()
    }

    /// The position of the state with the identity.
    fn position(&self, id: &StateId) -> (r: Option<usize>)
        requires
            self.wf(),
        ensures
            match r {
                Some(i) => i < self.state_seq().len() && self.ids()[i as int] == id@
                    && self.ids().index_of(id@) == i,
                None => !self.contains(id@),
            },
    {
        let mut i: usize = 0;
        while i < self.store.state_ids.len()
            invariant
                self.wf(),
                i <= self.store.state_ids@.len(),
                forall|j: int| 0 <= j < i ==> self.store.state_ids@[j]@ != id@,
            decreases self.store.state_ids@.len() - i,
        {
            if self.store.state_ids[i].same(id) {
                proof {
                    assert(self.ids()[i as int] == id@);
                }
                return Some(i);
            }
            i += 1;
        }
        proof {
            if self.contains(id@) {
                let j = choose|j: int| 0 <= j < self.ids().len() && self.ids()[j] == id@;
                assert(self.store.state_ids@[j]@ == id@);
            }
        }
        None
    }

    /// What adding a state makes of `self`: nothing where a state has its
    /// identity already, and the position of that state is handed out; else
    /// the state added as the last.
    pub open spec fn state_added(&self, after: &Self, state: S, r: usize) -> bool {
        &&& after.transition_seq() == self.transition_seq()
        &&& after.value_seq() == self.value_seq()
        &&& after.arcs() == self.arcs()
        &&& if self.contains(state.spec_id()) {
            &&& r == self.ids().index_of(state.spec_id())
            &&& after.state_seq() == self.state_seq()
            &&& after.metadata == self.metadata
        } else {
            &&& r == self.state_seq().len()
            &&& after.state_seq() == self.state_seq().push(state)
            &&& after.metadata.same_but_updated(&self.metadata)
        }
    }

    /// Adds a state and hands out its position. A state whose identity a
    /// state of the workflow has already is not added again.
    pub fn add_state(&mut self, state: S) -> (r: usize)
        requires
            old(self).wf(),
        ensures
            final(self).wf(),
            final(self).id == old(self).id,
            old(self).state_added(final(self), state, r),
    {
        let id = state.id();
        match self.position(&id) {
            Some(i) => i,
            None => {
                let ghost before = *self;
                let at = stable_add_node(&mut self.store.shape);
                self.store.states.push(state);
                self.store.state_ids.push(id);
                self.metadata.updated_at = now_millis();
                proof {
                    assert(self.ids() =~= before.ids().push(state.spec_id()));
                    assert forall|e: int| 0 <= e < self.arcs().len() implies self.ids()[(
                    #[trigger] self.arcs()[e]).0]
                        == step_source(self.transition_seq()[e]).spec_id()
                        && self.ids()[self.arcs()[e].1]
                        == step_target(self.transition_seq()[e]).spec_id() by {
                        assert(0 <= before.arcs()[e].0 < before.state_seq().len());
                        assert(0 <= before.arcs()[e].1 < before.state_seq().len());
                    }
                }
                at
            },
        }
    }

    /// What adding a transition makes of `self`: `StateNotFound` and no
    /// change where the state that it leaves or the state that it enters is
    /// missing, the first missing one named; else the transition added as
    /// the last, with its value.
    pub open spec fn transition_added(
        &self,
        after: &Self,
        transition: TransitionBox<S, I, O>,
        value: V,
        r: Result<usize, WorkflowGraphError>,
    ) -> bool {
        let from = step_source(transition).spec_id();
        let to = step_target(transition).spec_id();
        &&& after.state_seq() == self.state_seq()
        &&& if !self.contains(from) {
            &&& r is Err
            &&& r->Err_0 is StateNotFound
            &&& r->Err_0->StateNotFound_0@ == from
            &&& after.same_store_as(self)
            &&& after.metadata == self.metadata
        } else if !self.contains(to) {
            &&& r is Err
            &&& r->Err_0 is StateNotFound
            &&& r->Err_0->StateNotFound_0@ == to
            &&& after.same_store_as(self)
            &&& after.metadata == self.metadata
        } else {
            &&& r is Ok
            &&& r->Ok_0 == self.transition_seq().len()
            &&& after.transition_seq() == self.transition_seq().push(transition)
            &&& after.value_seq() == self.value_seq().push(value)
            &&& after.arcs() == self.arcs().push((self.ids().index_of(from), self.ids().index_of(to)))
            &&& after.metadata.same_but_updated(&self.metadata)
        }
    }

    /// Adds a transition between two states of the workflow, with its value,
    /// and hands out its position.
    pub fn add_transition(
        &mut self,
        transition: TransitionBox<S, I, O>,
        enrichment: V,
    ) -> (r: Result<usize, WorkflowGraphError>)
        requires
            old(self).wf(),
        ensures
            final(self).wf(),
            final(self).id == old(self).id,
            old(self).transition_added(final(self), transition, enrichment, r),
    {
        let source_id = transition.source().id();
        let target_id = transition.target().id();
        let a = match self.position(&source_id) {
            Some(i) => i,
            None => {
                return Err(WorkflowGraphError::StateNotFound(source_id));
            },
        };
        let b = match self.position(&target_id) {
            Some(i) => i,
            None => {
                return Err(WorkflowGraphError::StateNotFound(target_id));
            },
        };
        let ghost before = *self;
        let at = stable_add_arc(&mut self.store.shape, a, b);
        self.store.transitions.push(transition);
        self.store.values.push(enrichment);
        self.metadata.updated_at = now_millis();
        proof {
            assert(self.ids() =~= before.ids());
            assert forall|e: int| 0 <= e < self.arcs().len() implies self.ids()[(
            #[trigger] self.arcs()[e]).0] == step_source(self.transition_seq()[e]).spec_id()
                && self.ids()[self.arcs()[e].1]
                == step_target(self.transition_seq()[e]).spec_id() by {
                if e < before.arcs().len() {
                    assert(self.arcs()[e] == before.arcs()[e]);
                    assert(self.transition_seq()[e] == before.transition_seq()[e]);
                }
            }
        }
        Ok(at)
    }

    /// The state with the identity.
    pub fn get_state(&self, state_id: &StateId) -> (r: Option<&S>)
        requires
            self.wf(),
        ensures
            r == if self.contains(state_id@) {
                Some(&self.state_seq()[self.ids().index_of(state_id@)])
            } else {
                None
            },
    {
        match self.position(state_id) {
            Some(i) => Some(&self.store.states[i]),
            None => None,
        }
    }

    /// The states, in the order in which they were added.
    pub fn states(&self) -> (r: &Vec<S>)
        ensures
            r@ == self.state_seq(),
    {
        &self.store.states
    }

    /// The transitions, in the order in which they were added.
    pub fn transitions(&self) -> (r: &Vec<TransitionBox<S, I, O>>)
        ensures
            r@ == self.transition_seq(),
    {
        &self.store.transitions
    }

    /// The value of the transition at the position.
    pub fn enrichment_of(&self, transition: usize) -> (r: Option<&V>)
        requires
            self.wf(),
        ensures
            r == if transition < self.value_seq().len() {
                Some(&self.value_seq()[transition as int])
            } else {
                None
            },
    {
        if transition < self.store.values.len() {
            Some(&self.store.values[transition])
        } else {
            None
        }
    }

    /// The transition at position `e` leaves the state at position `v`, takes
    /// the input, and its guard passes in the context.
    pub open spec fn applies(&self, e: int, v: int, input: &I, context: &WorkflowContext) -> bool {
        &&& 0 <= e < self.arcs().len()
        &&& self.arcs()[e].0 == v
        &&& step_accepts(self.transition_seq()[e], input)
        &&& step_guard(self.transition_seq()[e], context)
    }

    /// `out` lists the transitions that apply at the state with the
    /// identity, each once with its value and its position, in the order in
    /// which they were added; none for an unknown state.
    pub open spec fn lists_applicable(
        &self,
        out: Seq<(&TransitionBox<S, I, O>, &V, usize)>,
        state: Seq<char>,
        input: &I,
        context: &WorkflowContext,
    ) -> bool {
        &&& forall|i: int|
            0 <= i < out.len() ==> self.contains(state) && self.applies(
                (#[trigger] out[i]).2 as int,
                self.ids().index_of(state),
                input,
                context,
            ) && *out[i].0 == self.transition_seq()[out[i].2 as int] && *out[i].1
                == self.value_seq()[out[i].2 as int]
        &&& forall|e: int|
            self.contains(state) && #[trigger] self.applies(
                e,
                self.ids().index_of(state),
                input,
                context,
            ) ==> exists|i: int| 0 <= i < out.len() && out[i].2 == e
        &&& forall|i: int, j: int| 0 <= i < j < out.len() ==> out[i].2 < out[j].2
    }

    /// The transitions out of the state that take the input and whose guard
    /// passes in the context, each with its value and its position.
    pub fn find_transitions<'a>(&'a self, state: &S, input: &I, context: &WorkflowContext) -> (r: Vec<
        (&'a TransitionBox<S, I, O>, &'a V, usize),
    >)
        requires
            self.wf(),
        ensures
            self.lists_applicable(r@, state.spec_id(), input, context),
    {
        let mut r: Vec<(&TransitionBox<S, I, O>, &V, usize)> = Vec::new();
        let id = state.id();
        let v = match self.position(&id) {
            Some(i) => i,
            None => {
                return r;
            },
        };
        let out = sort_positions(stable_out_arcs(&self.store.shape, v));
        let mut k: usize = 0;
        while k < out.len()
            invariant
                self.wf(),
                k <= out@.len(),
                v < self.state_seq().len(),
                self.ids().index_of(state.spec_id()) == v,
                self.contains(state.spec_id()),
                forall|i: int, j: int| 0 <= i < j < out@.len() ==> out@[i] < out@[j],
                forall|e: usize|
                    #[trigger] out@.contains(e) <==> e < self.arcs().len() && self.arcs()[e as int].0
                        == v,
                forall|i: int|
                    0 <= i < r@.len() ==> self.applies(
                        (#[trigger] r@[i]).2 as int,
                        v as int,
                        input,
                        context,
                    ) && *r@[i].0 == self.transition_seq()[r@[i].2 as int] && *r@[i].1
                        == self.value_seq()[r@[i].2 as int] && out@.contains(r@[i].2),
                forall|i: int| 0 <= i < r@.len() && k < out@.len() ==> (#[trigger] r@[i]).2 < out@[k as int],
                forall|i: int, j: int| 0 <= i < j < r@.len() ==> r@[i].2 < r@[j].2,
                forall|j: int|
                    0 <= j < k && self.applies(out@[j] as int, v as int, input, context)
                        ==> exists|i: int| 0 <= i < r@.len() && r@[i].2 == #[trigger] out@[j],
            decreases out@.len() - k,
        {
            let e = out[k];
            proof {
                assert(out@.contains(e));
                assert(e < self.arcs().len());
            }
            let ghost before = r@;
            if self.store.transitions[e].accepts_input(input) && self.store.transitions[e].guard(
                context,
            ) {
                r.push((&self.store.transitions[e], &self.store.values[e], e));
                proof {
                    assert forall|j: int|
                        0 <= j < k + 1 && self.applies(
                            out@[j] as int,
                            v as int,
                            input,
                            context,
                        ) implies exists|i: int| 0 <= i < r@.len() && r@[i].2 == #[trigger] out@[j] by {
                        if j == k {
                            assert(r@[r@.len() - 1].2 == out@[j]);
                        } else {
                            let i = choose|i: int| 0 <= i < before.len() && before[i].2 == out@[j];
                            assert(r@[i].2 == out@[j]);
                        }
                    }
                    assert forall|i: int, j: int| 0 <= i < j < r@.len() implies r@[i].2 < r@[j].2 by {
                        if j == r@.len() - 1 {
                            assert(before[i].2 < out@[k as int]);
                        } else {
                            assert(before[i].2 < before[j].2);
                        }
                    }
                }
            }
            proof {
                assert forall|i: int| 0 <= i < r@.len() && k + 1 < out@.len() implies (
                #[trigger] r@[i]).2 < out@[k as int + 1] by {
                    assert(out@[k as int] < out@[k as int + 1]);
                    if i < before.len() {
                        assert(before[i].2 < out@[k as int]);
                    }
                }
            }
            k += 1;
        }
        proof {
            assert forall|e: int| #[trigger]
                self.applies(e, v as int, input, context) implies exists|i: int|
                0 <= i < r@.len() && r@[i].2 == e by {
                assert(self.arcs().len() == self.store.transitions@.len());
                assert(self.store.transitions@.len() == self.store.transitions.len());
                let x = e as usize;
                assert(x as int == e);
                assert(out@.contains(x));
                let j = choose|j: int| 0 <= j < out@.len() && out@[j] == x;
                assert(self.applies(out@[j] as int, v as int, input, context));
            }
        }
        r
    }

    /// The values of the listed transitions.
    pub open spec fn values_of(
        out: Seq<(&TransitionBox<S, I, O>, &V, usize)>,
    ) -> Seq<V> {
        Seq::new(out.len(), |i: int| *out[i].1)
    }

    /// Of the transitions that apply at the state, the best: going through
    /// them in the order in which they were added, each takes the place of
    /// the best so far unless that is better than it.
    pub fn find_optimal_transition<'a>(
        &'a self,
        state: &S,
        input: &I,
        context: &WorkflowContext,
    ) -> (r: Option<(&'a TransitionBox<S, I, O>, &'a V, usize)>)
        requires
            self.wf(),
        ensures
            exists|out: Seq<(&TransitionBox<S, I, O>, &V, usize)>|
                #[trigger] self.lists_applicable(out, state.spec_id(), input, context) && r == if out.len()
                    == 0 {
                    None
                } else {
                    Some(out[best_of(Self::values_of(out), out.len())])
                },
    {
        let found = self.find_transitions(state, input, context);
        if found.len() == 0 {
            return None;
        }
        let mut best: usize = 0;
        let mut k: usize = 1;
        while k < found.len()
            invariant
                1 <= k <= found@.len(),
                best < k,
                best == best_of(Self::values_of(found@), k as nat),
            decreases found@.len() - k,
        {
            proof {
                assert(Self::values_of(found@)[best as int] == *found@[best as int].1);
                assert(Self::values_of(found@)[k as int] == *found@[k as int].1);
            }
            if !found[best].1.is_better_than(found[k].1) {
                best = k;
            }
            k += 1;
        }
        Some(found[best])
    }

    /// Whether some state is terminal.
    pub fn has_terminal_states(&self) -> (r: bool)
        ensures
            r == exists|i: int|
                0 <= i < self.state_seq().len() && (#[trigger] self.state_seq()[i]).spec_is_terminal(),
    {
        let mut i: usize = 0;
        while i < self.store.states.len()
            invariant
                i <= self.store.states@.len(),
                forall|j: int| 0 <= j < i ==> !(#[trigger] self.store.states@[j]).spec_is_terminal(),
            decreases self.store.states@.len() - i,
        {
            if self.store.states[i].is_terminal() {
                assert(self.state_seq()[i as int].spec_is_terminal());
                return true;
            }
            i += 1;
        }
        false
    }

    /// No transition enters the state at position `v`.
    pub open spec fn is_initial(&self, v: int) -> bool {
        0 <= v < self.state_seq().len() && self.arcs().filter(ends_at(v)).len() == 0
    }

    /// Some state at a position below `k` that no transition enters reaches
    /// the state at position `v`.
    pub open spec fn reached_within(&self, v: int, k: int) -> bool {
        exists|s: int| 0 <= s < k && self.is_initial(s) && #[trigger] reachable(self.arcs(), s, v)
    }

    /// `out` lists the states at the positions that pass `pick`, in the
    /// order of the states.
    pub open spec fn lists_picked(&self, out: Seq<&S>, pick: spec_fn(int) -> bool) -> bool {
        exists|ps: Seq<int>|
            {
                &&& #[trigger] ps.len() == out.len()
                &&& forall|i: int|
                    0 <= i < ps.len() ==> 0 <= #[trigger] ps[i] < self.state_seq().len() && pick(
                        ps[i],
                    ) && *out[i] == self.state_seq()[ps[i]]
                &&& forall|i: int, j: int| 0 <= i < j < ps.len() ==> ps[i] < ps[j]
                &&& forall|v: int| 0 <= v < self.state_seq().len() && pick(v) ==> ps.contains(v)
            }
    }

    /// The terminal positions.
    pub open spec fn terminal_at(&self) -> spec_fn(int) -> bool {
        |v: int| self.state_seq()[v].spec_is_terminal()
    }

    /// The positions that no transition enters.
    pub open spec fn initial_at(&self) -> spec_fn(int) -> bool {
        |v: int| self.is_initial(v)
    }

    /// The terminal states, in the order in which they were added.
    pub fn terminal_states(&self) -> (r: Vec<&S>)
        ensures
            self.lists_picked(r@, self.terminal_at()),
    {
        let mut r: Vec<&S> = Vec::new();
        let ghost mut ps: Seq<int> = Seq::empty();
        let mut i: usize = 0;
        while i < self.store.states.len()
            invariant
                i <= self.store.states@.len(),
                ps.len() == r@.len(),
                forall|k: int|
                    0 <= k < ps.len() ==> 0 <= #[trigger] ps[k] < i
                        && self.store.states@[ps[k]].spec_is_terminal() && *r@[k]
                        == self.store.states@[ps[k]],
                forall|a: int, b: int| 0 <= a < b < ps.len() ==> ps[a] < ps[b],
                forall|v: int|
                    0 <= v < i && (#[trigger] self.store.states@[v]).spec_is_terminal() ==> ps.contains(
                        v,
                    ),
            decreases self.store.states@.len() - i,
        {
            if self.store.states[i].is_terminal() {
                r.push(&self.store.states[i]);
                proof {
                    let before = ps;
                    ps = ps.push(i as int);
                    assert forall|v: int|
                        0 <= v < i + 1 && (
                        #[trigger] self.store.states@[v]).spec_is_terminal() implies ps.contains(v) by {
                        if v == i {
                            assert(ps[ps.len() - 1] == v);
                        } else {
                            assert(before.contains(v));
                            let k = choose|k: int| 0 <= k < before.len() && before[k] == v;
                            assert(ps[k] == v);
                        }
                    }
                }
            }
            i += 1;
        }
        proof {
            assert(ps.len() == r@.len());
            assert forall|v: int|
                0 <= v < self.state_seq().len() && (self.terminal_at())(v) implies ps.contains(v) by {
                assert(self.store.states@[v].spec_is_terminal());
            }
        }
        r
    }

    /// The states that no transition enters, in the order in which they
    /// were added.
    pub fn initial_states(&self) -> (r: Vec<&S>)
        requires
            self.wf(),
        ensures
            self.lists_picked(r@, self.initial_at()),
    {
        let mut r: Vec<&S> = Vec::new();
        let ghost mut ps: Seq<int> = Seq::empty();
        let mut i: usize = 0;
        while i < self.store.states.len()
            invariant
                self.wf(),
                i <= self.store.states@.len(),
                ps.len() == r@.len(),
                forall|k: int|
                    0 <= k < ps.len() ==> 0 <= #[trigger] ps[k] < i && self.is_initial(ps[k]) && *r@[k]
                        == self.store.states@[ps[k]],
                forall|a: int, b: int| 0 <= a < b < ps.len() ==> ps[a] < ps[b],
                forall|v: int| 0 <= v < i && #[trigger] self.is_initial(v) ==> ps.contains(v),
            decreases self.store.states@.len() - i,
        {
            if stable_in_degree(&self.store.shape, i) == 0 {
                r.push(&self.store.states[i]);
                proof {
                    let before = ps;
                    ps = ps.push(i as int);
                    assert forall|v: int| 0 <= v < i + 1 && #[trigger] self.is_initial(v) implies ps.contains(
                        v,
                    ) by {
                        if v == i {
                            assert(ps[ps.len() - 1] == v);
                        } else {
                            assert(before.contains(v));
                            let k = choose|k: int| 0 <= k < before.len() && before[k] == v;
                            assert(ps[k] == v);
                        }
                    }
                }
            }
            i += 1;
        }
        proof {
            assert(ps.len() == r@.len());
            assert forall|v: int|
                0 <= v < self.state_seq().len() && (self.initial_at())(v) implies ps.contains(v) by {
                assert(self.is_initial(v));
            }
        }
        r
    }

    /// The first of the states that no transition enters.
    pub fn get_initial_state(&self) -> (r: Option<&S>)
        requires
            self.wf(),
        ensures
            r is None <==> forall|v: int| !self.is_initial(v),
            r matches Some(s) ==> exists|v: int|
                #[trigger] self.is_initial(v) && *s == self.state_seq()[v] && forall|w: int|
                    0 <= w < v ==> !self.is_initial(w),
    {
        let mut i: usize = 0;
        while i < self.store.states.len()
            invariant
                self.wf(),
                i <= self.store.states@.len(),
                forall|w: int| 0 <= w < i ==> !self.is_initial(w),
            decreases self.store.states@.len() - i,
        {
            if stable_in_degree(&self.store.shape, i) == 0 {
                assert(self.is_initial(i as int));
                return Some(&self.store.states[i]);
            }
            i += 1;
        }
        None
    }

    /// For each position whether a state that no transition enters reaches
    /// it.
    fn find_reachable_states(&self) -> (marks: Vec<bool>)
        requires
            self.wf(),
        ensures
            marks@.len() == self.state_seq().len(),
            forall|v: int|
                0 <= v < marks@.len() ==> (#[trigger] marks@[v] <==> self.reached_within(
                    v,
                    self.state_seq().len() as int,
                )),
    {
        let n = self.store.states.len();
        let mut marks: Vec<bool> = Vec::new();
        let mut k: usize = 0;
        while k < n
            invariant
                k <= n,
                marks@.len() == k,
                forall|j: int| 0 <= j < k ==> !marks@[j],
            decreases n - k,
        {
            marks.push(false);
            k += 1;
        }
        let mut s: usize = 0;
        while s < n
            invariant
                self.wf(),
                n == self.state_seq().len(),
                s <= n,
                marks@.len() == n,
                forall|v: int| 0 <= v < n ==> (#[trigger] marks@[v] <==> self.reached_within(v, s as int)),
            decreases n - s,
        {
            if stable_in_degree(&self.store.shape, s) == 0 {
                let found = stable_reach(&self.store.shape, s);
                let ghost marks0 = marks@;
                let mut j: usize = 0;
                while j < found.len()
                    invariant
                        self.wf(),
                        n == self.state_seq().len(),
                        s < n,
                        j <= found@.len(),
                        marks@.len() == n,
                        marks0.len() == n,
                        forall|x: usize|
                            #[trigger] found@.contains(x) == (n > x && reachable(
                                self.arcs(),
                                s as int,
                                x as int,
                            )),
                        forall|v: int|
                            0 <= v < n ==> (#[trigger] marks@[v] <==> marks0[v] || exists|i: int|
                                0 <= i < j && found@[i] == v),
                    decreases found@.len() - j,
                {
                    let x = found[j];
                    proof {
                        assert(found@.contains(x));
                    }
                    let ghost marks1 = marks@;
                    marks.set(x, true);
                    proof {
                        assert forall|v: int| 0 <= v < n implies (#[trigger] marks@[v] <==> marks0[v]
                            || exists|i: int| 0 <= i < j + 1 && found@[i] == v) by {
                            if v == x {
                                assert(found@[j as int] == v);
                            } else {
                                assert(marks@[v] == marks1[v]);
                                if exists|i: int| 0 <= i < j + 1 && found@[i] == v {
                                    let i = choose|i: int| 0 <= i < j + 1 && found@[i] == v;
                                    assert(i < j);
                                }
                            }
                        }
                    }
                    j += 1;
                }
                proof {
                    assert(self.is_initial(s as int));
                    assert forall|v: int| 0 <= v < n implies (#[trigger] marks@[v]
                        <==> self.reached_within(v, s as int + 1)) by {
                        assert(marks0[v] <==> self.reached_within(v, s as int));
                        if marks@[v] {
                            if marks0[v] {
                                let w = choose|w: int|
                                    0 <= w < s && self.is_initial(w) && reachable(self.arcs(), w, v);
                                assert(reachable(self.arcs(), w, v));
                            } else {
                                let i = choose|i: int| 0 <= i < found@.len() && found@[i] == v;
                                assert(found@.contains(v as usize));
                                assert(reachable(self.arcs(), s as int, v));
                            }
                        }
                        if self.reached_within(v, s as int + 1) {
                            let w = choose|w: int|
                                0 <= w < s + 1 && self.is_initial(w) && reachable(self.arcs(), w, v);
                            if w == s {
                                assert(found@.contains(v as usize));
                                let i = choose|i: int| 0 <= i < found@.len() && found@[i] == v as usize;
                            } else {
                                assert(reachable(self.arcs(), w, v));
                                assert(self.reached_within(v, s as int));
                            }
                        }
                    }
                }
            } else {
                proof {
                    assert(!self.is_initial(s as int));
                    assert forall|v: int| 0 <= v < n implies (#[trigger] marks@[v]
                        <==> self.reached_within(v, s as int + 1)) by {
                        if self.reached_within(v, s as int + 1) {
                            let w = choose|w: int|
                                0 <= w < s + 1 && self.is_initial(w) && reachable(self.arcs(), w, v);
                            assert(reachable(self.arcs(), w, v));
                            assert(self.reached_within(v, s as int));
                        }
                        if self.reached_within(v, s as int) {
                            let w = choose|w: int|
                                0 <= w < s && self.is_initial(w) && reachable(self.arcs(), w, v);
                            assert(reachable(self.arcs(), w, v));
                        }
                    }
                }
            }
            s += 1;
        }
        marks
    }

    /// The positions that a state that no transition enters reaches.
    pub open spec fn reached_at(&self) -> spec_fn(int) -> bool {
        |v: int| self.reached_within(v, self.state_seq().len() as int)
    }

    /// The number of states that a state that no transition enters reaches.
    pub open spec fn reachable_count(&self) -> nat {
        all_positions(self.state_seq().len()).filter(self.reached_at()).len()
    }

    /// What validating the workflow gives: `NoInitialState` where a
    /// transition enters every state; else `NoTerminalState` where no state
    /// is terminal; else `UnreachableStates`, with the number of states and
    /// the number of those reached, where the states that no transition
    /// enters do not reach all states; else `Ok`.
    pub open spec fn validated(&self, r: Result<(), WorkflowGraphError>) -> bool {
        if forall|v: int| !self.is_initial(v) {
            r is Err && r->Err_0 is NoInitialState
        } else if !exists|i: int|
            0 <= i < self.state_seq().len() && (#[trigger] self.state_seq()[i]).spec_is_terminal() {
            r is Err && r->Err_0 is NoTerminalState
        } else if self.reachable_count() < self.state_seq().len() {
            r is Err && r->Err_0 == (WorkflowGraphError::UnreachableStates {
                total: self.state_seq().len() as usize,
                reachable: self.reachable_count() as usize,
            })
        } else {
            r is Ok
        }
    }

    /// Checks that the workflow can begin, can end, and has no state that
    /// cannot be reached from where it begins.
    pub fn validate(&self) -> (r: Result<(), WorkflowGraphError>)
        requires
            self.wf(),
        ensures
            self.validated(r),
    {
        if self.get_initial_state().is_none() {
            return Err(WorkflowGraphError::NoInitialState);
        }
        if !self.has_terminal_states() {
            return Err(WorkflowGraphError::NoTerminalState);
        }
        let marks = self.find_reachable_states();
        let total = self.store.states.len();
        let ghost all = all_positions(total as nat);
        let ghost pick = self.reached_at();
        let mut count: usize = 0;
        let mut v: usize = 0;
        while v < total
            invariant
                total == self.state_seq().len(),
                marks@.len() == total,
                v <= total,
                count <= v,
                all == all_positions(total as nat),
                pick == self.reached_at(),
                forall|w: int| 0 <= w < total ==> (#[trigger] marks@[w] <==> pick(w)),
                count == all.take(v as int).filter(pick).len(),
            decreases total - v,
        {
            proof {
                assert(all.take(v as int + 1) =~= all.take(v as int).push(v as int));
                all.take(v as int).lemma_filter_push(v as int, pick);
            }
            if marks[v] {
                count += 1;
            }
            v += 1;
        }
        proof {
            assert(all.take(total as int) =~= all);
        }
        if count < total {
            return Err(WorkflowGraphError::UnreachableStates { total, reachable: count });
        }
        Ok(())
    }
}

} // verus!
