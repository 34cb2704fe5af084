//! States, transitions and enrichment values of workflows.

use vstd::prelude::*;

verus! {

/// The identity of a workflow state.
#[derive(Debug, Clone, Hash, PartialOrd, Ord)]
pub struct StateId(pub String);

impl View for StateId {
    type V = Seq<char>;

    open spec fn view(&self) -> Seq<char> {
        self.0@
    }
}

impl StateId {
    /// The identity with the given text.
    pub fn new(text: &str) -> (r: Self)
        ensures
            r@ == text@,
    {
        StateId(text.to_owned())
    }

    /// Whether both are the same identity.
    pub fn same(&self, other: &StateId) -> (r: bool)
        ensures
            r == (self@ == other@),
    {
        self.0 == other.0
    }

    /// The text of the identity.
    pub fn to_string(&self) -> (r: String)
        ensures
            r@ == self@,
    {
        self.0.clone()
    }
}

impl PartialEq for StateId {
    fn eq(&self, other: &Self) -> (r: bool) {
        self.same(other)
    }
}

impl vstd::std_specs::cmp::PartialEqSpecImpl for StateId {
    open spec fn obeys_eq_spec() -> bool {
        true
    }

    open spec fn eq_spec(&self, other: &Self) -> bool {
        self@ == other@
    }
}

impl Eq for StateId {

}

/// The kind of a workflow.
#[derive(Debug, Clone, Copy, PartialEq, Eq, Structural)]
pub enum WorkflowType {
    Sequential,
    Parallel,
    Conditional,
    StateMachine,
}

/// The kind of value that the transitions of a workflow are enriched with.
#[derive(Debug, Clone, Copy, PartialEq, Eq, Structural)]
pub enum EnrichmentType {
    BusinessValue,
    Cost,
    Time,
    Risk,
}

/// What a guard of a transition is evaluated against.
#[derive(Debug, Clone)]
pub struct WorkflowContext {
    pub variables: Vec<(String, String)>,
}

impl WorkflowContext {
    /// A context without variables.
    pub fn new() -> (c: Self)
        ensures
            c.variables@.len() == 0,
    {
        WorkflowContext { variables: Vec::new() }
    }

    /// Sets a variable; a variable set before stays, behind the new one.
    pub fn set(&mut self, key: &str, value: &str)
        ensures
            final(self).variables@.len() == old(self).variables@.len() + 1,
            final(self).variables@.drop_last() == old(self).variables@,
            final(self).variables@.last().0@ == key@,
            final(self).variables@.last().1@ == value@,
    {
        self.variables.push((key.to_owned(), value.to_owned()));
        assert(self.variables@.drop_last() =~= old(self).variables@);
    }

    /// The value that the variable was set to last.
    pub fn get(&self, key: &str) -> (r: Option<&String>)
        ensures
            r is None <==> forall|i: int|
                0 <= i < self.variables@.len() ==> (#[trigger] self.variables@[i]).0@ != key@,
            r matches Some(v) ==> exists|i: int|
                0 <= i < self.variables@.len() && (#[trigger] self.variables@[i]).0@ == key@
                    && self.variables@[i].1 == *v && forall|j: int|
                    i < j < self.variables@.len() ==> (#[trigger] self.variables@[j]).0@ != key@,
    {
        let wanted = key.to_owned();
        let mut i: usize = self.variables.len();
        while i > 0
            invariant
                wanted@ == key@,
                i <= self.variables@.len(),
                forall|j: int|
                    i <= j < self.variables@.len() ==> (#[trigger] self.variables@[j]).0@ != key@,
            decreases i,
        {
            i -= 1;
            if self.variables[i].0 == wanted {
                return Some(&self.variables[i].1);
            }
        }
        None
    }
}

/// A state of a workflow: it has an identity, and it may be terminal.
///
/// What a state answers depends on the state alone.
pub trait WorkflowState {
    /// The identity of the state.
    closed spec fn spec_id(&self) -> Seq<char> {
        (arbitrary::<spec_fn(&Self) -> Seq<char>>())(self)
    }

    /// Whether the workflow may end in the state.
    closed spec fn spec_is_terminal(&self) -> bool {
        (arbitrary::<spec_fn(&Self) -> bool>())(self)
    }

    /// The identity of the state.
    fn id(&self) -> (r: StateId)
        ensures
            r@ == self.spec_id(),
    ;

    /// Whether the workflow may end in the state.
    fn is_terminal(&self) -> (r: bool)
        ensures
            r == self.spec_is_terminal(),
    ;
}

/// What a transition is offered.
pub trait TransitionInput {

}

/// What a transition gives.
pub trait TransitionOutput {

}

/// A transition of a workflow from one state to another.
///
/// What a transition answers depends on the transition and on what it is
/// asked about alone.
pub trait WorkflowTransition<S, I, O> {
    /// The state that the transition leaves.
    closed spec fn spec_source(&self) -> S {
        (arbitrary::<spec_fn(&Self) -> S>())(self)
    }

    /// The state that the transition enters.
    closed spec fn spec_target(&self) -> S {
        (arbitrary::<spec_fn(&Self) -> S>())(self)
    }

    /// Whether the transition takes the input.
    closed spec fn spec_accepts(&self, input: &I) -> bool {
        (arbitrary::<spec_fn(&Self, &I) -> bool>())(self, input)
    }

    /// Whether the guard of the transition passes in the context.
    closed spec fn spec_guard(&self, context: &WorkflowContext) -> bool {
        (arbitrary::<spec_fn(&Self, &WorkflowContext) -> bool>())(self, context)
    }

    /// The state that the transition leaves.
    fn source(&self) -> (r: &S)
        ensures
            *r == self.spec_source(),
    ;

    /// The state that the transition enters.
    fn target(&self) -> (r: &S)
        ensures
            *r == self.spec_target(),
    ;

    /// Whether the transition takes the input.
    fn accepts_input(&self, input: &I) -> (r: bool)
        ensures
            r == self.spec_accepts(input),
    ;

    /// Whether the guard of the transition passes in the context.
    fn guard(&self, context: &WorkflowContext) -> (r: bool)
        ensures
            r == self.spec_guard(context),
    ;
}

/// A value that a transition is enriched with, by which transitions are
/// ranked.
///
/// Whether one value is better than another depends on the two alone.
pub trait EnrichmentValue: Sized {
    /// Whether the value is to be preferred to the other.
    closed spec fn spec_better(&self, other: &Self) -> bool {
        (arbitrary::<spec_fn(&Self, &Self) -> bool>())(self, other)
    }

    /// The value of going by both.
    fn combine(&self, other: &Self) -> Self;

    /// The value of doing nothing.
    fn identity() -> Self;

    /// Whether the value is to be preferred to the other.
    fn is_better_than(&self, other: &Self) -> (r: bool)
        ensures
            r == self.spec_better(other),
    ;
}

/// A state with a name, which is its identity.
#[derive(Debug)]
pub struct SimpleState {
    pub name: String,
    pub terminal: bool,
}

impl SimpleState {
    /// A state that is not terminal.
    pub fn new(name: &str) -> (s: Self)
        ensures
            s.name@ == name@,
            !s.terminal,
    {
        SimpleState { name: name.to_owned(), terminal: false }
    }

    /// A terminal state.
    pub fn terminal(name: &str) -> (s: Self)
        ensures
            s.name@ == name@,
            s.terminal,
    {
        SimpleState { name: name.to_owned(), terminal: true }
    }
}

impl Clone for SimpleState {
    fn clone(&self) -> (r: Self)
        ensures
            r.name@ == self.name@,
            r.terminal == self.terminal,
    {
        SimpleState { name: self.name.clone(), terminal: self.terminal }
    }
}

impl WorkflowState for SimpleState {
    open spec fn spec_id(&self) -> Seq<char> {
        self.name@
    }

    open spec fn spec_is_terminal(&self) -> bool {
        self.terminal
    }

    fn id(&self) -> (r: StateId) {
        StateId(self.name.clone())
    }

    fn is_terminal(&self) -> (r: bool) {
        self.terminal
    }
}

/// An input with a name.
#[derive(Debug, Clone)]
pub struct SimpleInput(pub String);

impl SimpleInput {
    /// The input with the name.
    pub fn new(name: &str) -> (r: Self)
        ensures
            r.0@ == name@,
    {
        SimpleInput(name.to_owned())
    }
}

impl Default for SimpleInput {
    fn default() -> (r: Self)
        ensures
            r.0@ == Seq::<char>::empty(),
    {
        SimpleInput(String::new())
    }
}

impl TransitionInput for SimpleInput {

}

/// An output with a name.
#[derive(Debug, Clone)]
pub struct SimpleOutput(pub String);

impl SimpleOutput {
    /// The output with the name.
    pub fn new(name: &str) -> (r: Self)
        ensures
            r.0@ == name@,
    {
        SimpleOutput(name.to_owned())
    }
}

impl Default for SimpleOutput {
    fn default() -> (r: Self)
        ensures
            r.0@ == Seq::<char>::empty(),
    {
        SimpleOutput(String::new())
    }
}

impl TransitionOutput for SimpleOutput {

}

/// A transition that takes one input and has no guard.
#[derive(Debug)]
pub struct SimpleTransition {
    pub name: String,
    pub source: SimpleState,
    pub target: SimpleState,
    pub input: SimpleInput,
    pub output: SimpleOutput,
}

impl SimpleTransition {
    /// The transition with the name from `source` to `target` on `input`.
    pub fn new(
        name: &str,
        source: SimpleState,
        target: SimpleState,
        input: SimpleInput,
        output: SimpleOutput,
    ) -> (t: Self)
        ensures
            t.name@ == name@,
            t.source == source,
            t.target == target,
            t.input == input,
            t.output == output,
    {
        SimpleTransition { name: name.to_owned(), source, target, input, output }
    }
}

impl WorkflowTransition<SimpleState, SimpleInput, SimpleOutput> for SimpleTransition {
    open spec fn spec_source(&self) -> SimpleState {
        self.source
    }

    open spec fn spec_target(&self) -> SimpleState {
        self.target
    }

    open spec fn spec_accepts(&self, input: &SimpleInput) -> bool {
        input.0@ == self.input.0@
    }

    open spec fn spec_guard(&self, context: &WorkflowContext) -> bool {
        true
    }

    fn source(&self) -> (r: &SimpleState) {
        &self.source
    }

    fn target(&self) -> (r: &SimpleState) {
        &self.target
    }

    fn accepts_input(&self, input: &SimpleInput) -> (r: bool) {
        input.0 == self.input.0
    }

    fn guard(&self, context: &WorkflowContext) -> (r: bool) {
        true
    }
}

} // verus!
