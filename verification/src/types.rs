//! Identifiers, errors, entries and the common components.

use std::any::TypeId;
use vstd::prelude::*;

use crate::component::attached;
use crate::component::detached;
use crate::component::looked_up;
use crate::component::type_key;
use crate::component::ComponentBox;
use crate::component::Component;
use crate::component::ComponentStorage;

verus! {

/// The hyphenated text of the UUID whose 128 bits are `raw`.
pub uninterp spec fn uuid_text(raw: u128) -> Seq<char>;

/// The text form of the content identifier encoded by `bytes`, or `None`
/// where `bytes` encode none.
pub uninterp spec fn cid_text(bytes: Seq<u8>) -> Option<Seq<char>>;

/// Whether the 128 bits are those of a random UUID: the four bits of the
/// version say 4, the two bits of the variant say RFC 4122; the other 122
/// bits are free.
pub open spec fn is_random_uuid(raw: u128) -> bool {
    raw & 0xF000_C000_0000_0000_0000u128 == 0x4000_8000_0000_0000_0000u128
}

/// `Uuid::new_v4().as_u128()`: random bits, but for those of the version and
/// of the variant, which are set as `is_random_uuid` says.
#[verifier::external_body]
fn random_uuid() -> (r: u128)
    ensures
        is_random_uuid(r),
{
    uuid::Uuid::new_v4().as_u128()
}

/// `Uuid::from_u128(raw)` shown by its `Display`: the hyphenated lower-case
/// form, which depends on the 128 bits alone.
#[verifier::external_body]
fn uuid_to_text(raw: u128) -> (r: String)
    ensures
        r@ == uuid_text(raw),
{
    uuid::Uuid::from_u128(raw).to_string()
}

/// `Cid::try_from` on the bytes, then the `Display` of what was read: the
/// multibase text of the identifier, or `None` where the bytes are no
/// identifier.
#[verifier::external_body]
fn cid_to_text(bytes: &Vec<u8>) -> (r: Option<String>)
    ensures
        r is Some == cid_text(bytes@) is Some,
        r matches Some(s) ==> cid_text(bytes@) == Some(s@),
{
    match cid::Cid::try_from(bytes.as_slice()) {
        Ok(c) => Some(c.to_string()),
        Err(_) => None,
    }
}

/// `format!` of two strings: the first followed by the second.
#[verifier::external_body]
pub(crate) fn concat(a: &str, b: &str) -> (r: String)
    ensures
        r@ == a@ + b@,
{
    format!("{}{}", a, b)
}

/// `Utc::now().timestamp_millis()`: the time on the clock of the machine, in
/// milliseconds since the first of January 1970.
#[verifier::external_body]
pub(crate) fn now_millis() -> i64 {
    chrono::Utc::now().timestamp_millis()
}

/// Identifier of a workflow graph.
#[derive(Debug, Clone, Copy, PartialEq, Eq, Hash, Structural)]
pub struct GraphId(pub u128);

impl GraphId {
    /// A new identifier, drawn at random.
    pub fn new() -> (r: Self)
        ensures
            is_random_uuid(r.0),
    {
        GraphId(random_uuid())
    }

    /// The identifier as UUID text.
    pub fn to_string(&self) -> (r: String)
        ensures
            r@ == uuid_text(self.0),
    {
        uuid_to_text(self.0)
    }
}

impl Default for GraphId {
    fn default() -> Self {
        GraphId::new()
    }
}

/// Identifier of a context graph.
#[derive(Debug, Clone, Copy, PartialEq, Eq, Hash, Structural)]
pub struct ContextGraphId(pub u128);

/// Identifier of a concept graph.
#[derive(Debug, Clone, Copy, PartialEq, Eq, Hash, Structural)]
pub struct ConceptGraphId(pub u128);

/// Identifier of a node; stable while the node is in its graph.
#[derive(Debug, Clone, Copy, PartialEq, Eq, Hash, Structural)]
pub struct NodeId(pub u128);

/// Identifier of an edge; stable while the edge is in its graph.
#[derive(Debug, Clone, Copy, PartialEq, Eq, Hash, Structural)]
pub struct EdgeId(pub u128);

impl ContextGraphId {
    /// A new identifier, drawn at random.
    pub fn new() -> (r: Self)
        ensures
            is_random_uuid(r.0),
    {
        ContextGraphId(random_uuid())
    }

    /// The identifier as UUID text.
    pub fn to_string(&self) -> (r: String)
        ensures
            r@ == uuid_text(self.0),
    {
        uuid_to_text(self.0)
    }
}

impl ConceptGraphId {
    /// A new identifier, drawn at random.
    pub fn new() -> (r: Self)
        ensures
            is_random_uuid(r.0),
    {
        ConceptGraphId(random_uuid())
    }

    /// The identifier as UUID text.
    pub fn to_string(&self) -> (r: String)
        ensures
            r@ == uuid_text(self.0),
    {
        uuid_to_text(self.0)
    }
}

impl NodeId {
    /// A new identifier, drawn at random.
    pub fn new() -> (r: Self)
        ensures
            is_random_uuid(r.0),
    {
        NodeId(random_uuid())
    }

    /// The identifier as UUID text.
    pub fn to_string(&self) -> (r: String)
        ensures
            r@ == uuid_text(self.0),
    {
        uuid_to_text(self.0)
    }
}

impl EdgeId {
    /// A new identifier, drawn at random.
    pub fn new() -> (r: Self)
        ensures
            is_random_uuid(r.0),
    {
        EdgeId(random_uuid())
    }

    /// The identifier as UUID text.
    pub fn to_string(&self) -> (r: String)
        ensures
            r@ == uuid_text(self.0),
    {
        uuid_to_text(self.0)
    }
}

impl Default for ContextGraphId {
    fn default() -> Self {
        ContextGraphId::new()
    }
}

impl Default for ConceptGraphId {
    fn default() -> Self {
        ConceptGraphId::new()
    }
}

impl Default for NodeId {
    fn default() -> Self {
        NodeId::new()
    }
}

impl Default for EdgeId {
    fn default() -> Self {
        EdgeId::new()
    }
}

/// A content identifier, held as the bytes of its binary form.
///
/// Two identifiers are the same when their bytes are.
#[derive(Debug, Hash, PartialOrd, Ord)]
pub struct ContentId {
    bytes: Vec<u8>,
}

impl View for ContentId {
    type V = Seq<u8>;

    closed spec fn view(&self) -> Seq<u8> {
        self.bytes@
    }
}

impl ContentId {
    /// The identifier with the given binary form.
    pub fn from_bytes(bytes: Vec<u8>) -> (c: Self)
        ensures
            c@ == bytes@,
    {
        ContentId { bytes }
    }

    /// The binary form.
    pub fn as_bytes(&self) -> (b: &Vec<u8>)
        ensures
            b@ == self@,
    {
        &self.bytes
    }

    /// Whether both are the same identifier.
    pub fn same(&self, other: &ContentId) -> (r: bool)
        ensures
            r == (self@ == other@),
    {
        if self.bytes.len() != other.bytes.len() {
            return false;
        }
        let mut i: usize = 0;
        while i < self.bytes.len()
            invariant
                self.bytes@.len() == other.bytes@.len(),
                i <= self.bytes@.len(),
                forall|j: int| 0 <= j < i ==> self.bytes@[j] == other.bytes@[j],
            decreases self.bytes@.len() - i,
        {
            if self.bytes[i] != other.bytes[i] {
                return false;
            }
            i += 1;
        }
        assert(self.bytes@ =~= other.bytes@);
        true
    }

    /// The multibase text of the identifier; empty where the bytes encode
    /// no identifier.
    pub fn to_string(&self) -> (r: String)
        ensures
            r@ == match cid_text(self@) {
                Some(s) => s,
                None => Seq::<char>::empty(),
            },
    {
        match cid_to_text(&self.bytes) {
            Some(s) => s,
            None => String::new(),
        }
    }
}

impl Clone for ContentId {
    fn clone(&self) -> (r: Self)
        ensures
            r@ == self@,
    {
        let bytes = self.bytes.clone();
        assert(bytes@ =~= self.bytes@);
        ContentId { bytes }
    }
}

impl PartialEq for ContentId {
    fn eq(&self, other: &Self) -> (r: bool) {
        self.same(other)
    }
}

impl vstd::std_specs::cmp::PartialEqSpecImpl for ContentId {
    open spec fn obeys_eq_spec() -> bool {
        true
    }

    open spec fn eq_spec(&self, other: &Self) -> bool {
        self@ == other@
    }
}

impl Eq for ContentId {

}

/// What can go wrong in a graph operation.
#[derive(Debug, Clone)]
pub enum GraphError {
    NodeNotFound(NodeId),
    EdgeNotFound(EdgeId),
    GraphNotFound(ContextGraphId),
    ComponentNotFound(String),
    ComponentAlreadyExists(String),
    InvalidOperation(String),
    InvariantViolation(String),
    CompositionError(String),
    MorphismError(String),
    CidNotFound(ContentId),
    DuplicateCid(ContentId),
    CycleDetected,
    ChainVerificationFailed,
}

/// Result of a graph operation.
pub type GraphResult<T> = Result<T, GraphError>;

/// An error by what it holds: its kind, with the text or the bytes that it
/// carries.
pub enum GraphErrorView {
    NodeNotFound(NodeId),
    EdgeNotFound(EdgeId),
    GraphNotFound(ContextGraphId),
    ComponentNotFound(Seq<char>),
    ComponentAlreadyExists(Seq<char>),
    InvalidOperation(Seq<char>),
    InvariantViolation(Seq<char>),
    CompositionError(Seq<char>),
    MorphismError(Seq<char>),
    CidNotFound(Seq<u8>),
    DuplicateCid(Seq<u8>),
    CycleDetected,
    ChainVerificationFailed,
}

impl View for GraphError {
    type V = GraphErrorView;

    open spec fn view(&self) -> GraphErrorView {
        match self {
            GraphError::NodeNotFound(id) => GraphErrorView::NodeNotFound(*id),
            GraphError::EdgeNotFound(id) => GraphErrorView::EdgeNotFound(*id),
            GraphError::GraphNotFound(id) => GraphErrorView::GraphNotFound(*id),
            GraphError::ComponentNotFound(s) => GraphErrorView::ComponentNotFound(s@),
            GraphError::ComponentAlreadyExists(s) => GraphErrorView::ComponentAlreadyExists(s@),
            GraphError::InvalidOperation(s) => GraphErrorView::InvalidOperation(s@),
            GraphError::InvariantViolation(s) => GraphErrorView::InvariantViolation(s@),
            GraphError::CompositionError(s) => GraphErrorView::CompositionError(s@),
            GraphError::MorphismError(s) => GraphErrorView::MorphismError(s@),
            GraphError::CidNotFound(c) => GraphErrorView::CidNotFound(c@),
            GraphError::DuplicateCid(c) => GraphErrorView::DuplicateCid(c@),
            GraphError::CycleDetected => GraphErrorView::CycleDetected,
            GraphError::ChainVerificationFailed => GraphErrorView::ChainVerificationFailed,
        }
    }
}

/// What a check answered, by what it holds: `Ok`, or the error by its kind
/// and content.
pub open spec fn outcome(r: GraphResult<()>) -> Result<(), GraphErrorView> {
    match r {
        Ok(_) => Ok(()),
        Err(e) => Err(e@),
    }
}

impl GraphErrorView {
    /// The message of the error.
    pub open spec fn message(&self) -> Seq<char> {
        match self {
            GraphErrorView::NodeNotFound(id) => "Node not found: "@ + uuid_text(id.0),
            GraphErrorView::EdgeNotFound(id) => "Edge not found: "@ + uuid_text(id.0),
            GraphErrorView::GraphNotFound(id) => "Graph not found: "@ + uuid_text(id.0),
            GraphErrorView::ComponentNotFound(s) => "Component not found: "@ + *s,
            GraphErrorView::ComponentAlreadyExists(s) => "Component already exists: "@ + *s,
            GraphErrorView::InvalidOperation(s) => "Invalid operation: "@ + *s,
            GraphErrorView::InvariantViolation(s) => "Invariant violation: "@ + *s,
            GraphErrorView::CompositionError(s) => "Composition error: "@ + *s,
            GraphErrorView::MorphismError(s) => "Morphism error: "@ + *s,
            GraphErrorView::CidNotFound(c) => "CID "@ + match cid_text(*c) {
                Some(s) => s,
                None => Seq::<char>::empty(),
            } + " not found"@,
            GraphErrorView::DuplicateCid(c) => "Duplicate CID "@ + match cid_text(*c) {
                Some(s) => s,
                None => Seq::<char>::empty(),
            },
            GraphErrorView::CycleDetected => "Cycle detected in DAG"@,
            GraphErrorView::ChainVerificationFailed => "Chain verification failed"@,
        }
    }
}

impl GraphError {
    /// The message of the error.
    pub open spec fn message(&self) -> Seq<char> {
        self@.message()
    }

    /// The message of the error as a string.
    pub fn to_string(&self) -> (r: String)
        ensures
            r@ == self.message(),
    {
        match self {
            GraphError::NodeNotFound(id) => concat("Node not found: ", id.to_string().as_str()),
            GraphError::EdgeNotFound(id) => concat("Edge not found: ", id.to_string().as_str()),
            GraphError::GraphNotFound(id) => concat("Graph not found: ", id.to_string().as_str()),
            GraphError::ComponentNotFound(s) => concat("Component not found: ", s.as_str()),
            GraphError::ComponentAlreadyExists(s) => concat(
                "Component already exists: ",
                s.as_str(),
            ),
            GraphError::InvalidOperation(s) => concat("Invalid operation: ", s.as_str()),
            GraphError::InvariantViolation(s) => concat("Invariant violation: ", s.as_str()),
            GraphError::CompositionError(s) => concat("Composition error: ", s.as_str()),
            GraphError::MorphismError(s) => concat("Morphism error: ", s.as_str()),
            GraphError::CidNotFound(c) => {
                let head = concat("CID ", c.to_string().as_str());
                concat(head.as_str(), " not found")
            },
            GraphError::DuplicateCid(c) => concat("Duplicate CID ", c.to_string().as_str()),
            GraphError::CycleDetected => "Cycle detected in DAG".to_owned(),
            GraphError::ChainVerificationFailed => "Chain verification failed".to_owned(),
        }
    }
}

/// A node of a graph: its identifier, its value and its components.
#[derive(Debug)]
pub struct NodeEntry<N> {
    pub id: NodeId,
    pub value: N,
    pub components: ComponentStorage,
}

impl<N> NodeEntry<N> {
    /// A node with a new identifier and no components.
    pub fn new(value: N) -> (e: Self)
        ensures
            e.value == value,
            e.components@ == Map::<TypeId, ComponentBox>::empty(),
    {
        NodeEntry { id: NodeId::new(), value, components: ComponentStorage::new() }
    }

    /// A node with the given identifier and no components.
    pub fn with_id(id: NodeId, value: N) -> (e: Self)
        ensures
            e.id == id,
            e.value == value,
            e.components@ == Map::<TypeId, ComponentBox>::empty(),
    {
        NodeEntry { id, value, components: ComponentStorage::new() }
    }

    /// The identifier of the node.
    pub fn id(&self) -> (r: NodeId)
        ensures
            r == self.id,
    {
        self.id
    }

    /// Attaches `component`, unless one of its type is attached already.
    pub fn add_component<T: Component + 'static>(&mut self, component: T) -> (r: Result<
        (),
        GraphError,
    >)
        ensures
            final(self).id == old(self).id,
            final(self).value == old(self).value,
            attached(old(self).components@, final(self).components@, component, r),
    {
        self.components.add(component)
    }

    /// The node with `component` attached, or the error of `add_component`.
    pub fn with_component<T: Component + 'static>(self, component: T) -> (r: Result<
        Self,
        GraphError,
    >)
        ensures
            r matches Ok(e) ==> e.id == self.id && e.value == self.value && attached(
                self.components@,
                e.components@,
                component,
                Ok(()),
            ),
            r matches Err(e) ==> attached(self.components@, self.components@, component, Err(e)),
    {
        let mut entry = self;
        match entry.components.add(component) {
            Ok(()) => Ok(entry),
            Err(e) => Err(e),
        }
    }

    /// The attached component of type `T`.
    pub fn get_component<T: Component + 'static>(&self) -> (r: Option<&T>)
        ensures
            looked_up(self.components@, r),
    {
        self.components.get::<T>()
    }

    /// Whether a component of type `T` is attached.
    pub fn has_component<T: Component + 'static>(&self) -> (r: bool)
        ensures
            r == self.components@.contains_key(type_key::<T>()),
    {
        self.components.has::<T>()
    }

    /// Detaches the component of type `T` and hands it out.
    pub fn remove_component<T: Component + 'static>(&mut self) -> (r: Option<ComponentBox>)
        ensures
            final(self).id == old(self).id,
            final(self).value == old(self).value,
            detached::<T>(old(self).components@, final(self).components@, r),
    {
        self.components.remove::<T>()
    }
}

impl<N: Clone> Clone for NodeEntry<N> {
    fn clone(&self) -> (r: Self)
        ensures
            r.id == self.id,
            cloned(self.value, r.value),
            r.components@ == self.components@,
    {
        NodeEntry { id: self.id, value: self.value.clone(), components: self.components.clone() }
    }
}

/// An edge of a graph: its identifier, its two ends, its value and its
/// components.
#[derive(Debug)]
pub struct EdgeEntry<E> {
    pub id: EdgeId,
    pub source: NodeId,
    pub target: NodeId,
    pub value: E,
    pub components: ComponentStorage,
}

impl<E> EdgeEntry<E> {
    /// An edge with a new identifier and no components.
    pub fn new(source: NodeId, target: NodeId, value: E) -> (e: Self)
        ensures
            e.source == source,
            e.target == target,
            e.value == value,
            e.components@ == Map::<TypeId, ComponentBox>::empty(),
    {
        EdgeEntry { id: EdgeId::new(), source, target, value, components: ComponentStorage::new() }
    }

    /// An edge with the given identifier and no components.
    pub fn with_id(id: EdgeId, source: NodeId, target: NodeId, value: E) -> (e: Self)
        ensures
            e.id == id,
            e.source == source,
            e.target == target,
            e.value == value,
            e.components@ == Map::<TypeId, ComponentBox>::empty(),
    {
        EdgeEntry { id, source, target, value, components: ComponentStorage::new() }
    }

    /// Attaches `component`, unless one of its type is attached already.
    pub fn add_component<T: Component + 'static>(&mut self, component: T) -> (r: Result<
        (),
        GraphError,
    >)
        ensures
            final(self).id == old(self).id,
            final(self).source == old(self).source,
            final(self).target == old(self).target,
            final(self).value == old(self).value,
            attached(old(self).components@, final(self).components@, component, r),
    {
        self.components.add(component)
    }

    /// The edge with `component` attached, or the error of `add_component`.
    pub fn with_component<T: Component + 'static>(self, component: T) -> (r: Result<
        Self,
        GraphError,
    >)
        ensures
            r matches Ok(e) ==> e.id == self.id && e.source == self.source && e.target
                == self.target && e.value == self.value && attached(
                self.components@,
                e.components@,
                component,
                Ok(()),
            ),
            r matches Err(e) ==> attached(self.components@, self.components@, component, Err(e)),
    {
        let mut entry = self;
        match entry.components.add(component) {
            Ok(()) => Ok(entry),
            Err(e) => Err(e),
        }
    }

    /// The attached component of type `T`.
    pub fn get_component<T: Component + 'static>(&self) -> (r: Option<&T>)
        ensures
            looked_up(self.components@, r),
    {
        self.components.get::<T>()
    }

    /// Whether a component of type `T` is attached.
    pub fn has_component<T: Component + 'static>(&self) -> (r: bool)
        ensures
            r == self.components@.contains_key(type_key::<T>()),
    {
        self.components.has::<T>()
    }
}

impl<E: Clone> Clone for EdgeEntry<E> {
    fn clone(&self) -> (r: Self)
        ensures
            r.id == self.id,
            r.source == self.source,
            r.target == self.target,
            cloned(self.value, r.value),
            r.components@ == self.components@,
    {
        EdgeEntry {
            id: self.id,
            source: self.source,
            target: self.target,
            value: self.value.clone(),
            components: self.components.clone(),
        }
    }
}

/// A name, as a component.
#[derive(Debug, Clone)]
pub struct Label(pub String);

impl Component for Label {
    open spec fn spec_name(&self) -> Seq<char> {
        "Label"@
    }

    fn component_name(&self) -> (r: &'static str) {
        "Label"
    }
}

/// Free-form description of a graph or of one of its elements.
#[derive(Debug, Clone)]
pub struct Metadata {
    pub description: Option<String>,
    pub tags: Vec<String>,
    pub properties: Vec<(String, String)>,
}

impl Default for Metadata {
    fn default() -> (m: Self)
        ensures
            m.description is None,
            m.tags@.len() == 0,
            m.properties@.len() == 0,
    {
        Metadata { description: None, tags: Vec::new(), properties: Vec::new() }
    }
}

impl Component for Metadata {
    open spec fn spec_name(&self) -> Seq<char> {
        "Metadata"@
    }

    fn component_name(&self) -> (r: &'static str) {
        "Metadata"
    }
}

/// A reference to another graph, as a component.
#[derive(Debug, Clone)]
pub struct GraphReference(pub ContextGraphId);

impl Component for GraphReference {
    open spec fn spec_name(&self) -> Seq<char> {
        "GraphReference"@
    }

    fn component_name(&self) -> (r: &'static str) {
        "GraphReference"
    }
}

} // verus!
