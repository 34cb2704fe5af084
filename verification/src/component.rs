//! Components: typed attachments on nodes and edges, at most one of each type.

use std::any::Any;
use std::any::TypeId;
use std::sync::Arc;
use vstd::prelude::*;

use crate::types::GraphError;

verus! {

/// `std::any::TypeId`, the identity of a type; carried and compared, never
/// looked into.
#[verifier::external_type_specification]
#[verifier::external_body]
pub struct ExTypeId(TypeId);

/// A value that can be attached to a node or an edge.
///
/// A component is immutable once attached; its type is its key in the
/// storage, and its name is used in diagnostics only.
///
/// The name that a component answers with depends on the component alone.
pub trait Component: Send + Sync {
    /// Human-readable name of the component's type.
    closed spec fn spec_name(&self) -> Seq<char> {
        (arbitrary::<spec_fn(&Self) -> Seq<char>>())(self)
    }

    /// Human-readable name of the component's type.
    fn component_name(&self) -> (r: &'static str)
        ensures
            r@ == self.spec_name(),
    ;
}

/// A component whose type has been erased.
///
/// Holds an `Arc<dyn Any + Send + Sync>`. The verifier takes no trait object
/// of more than one trait, so the struct is held out of its sight: a value of
/// this type is opaque, and what it holds is told by `boxed`.
#[verifier::external_body]
#[derive(Debug)]
pub struct ComponentBox {
    value: Arc<dyn Any + Send + Sync>,
}

/// The identity of the type `T`: one value for each type.
pub closed spec fn type_key<T: 'static>() -> TypeId {
    arbitrary::<(TypeId, Option<T>)>().0
}

/// The erased form of the component `c`.
pub closed spec fn boxed<T: Component + 'static>(c: T) -> ComponentBox {
    (arbitrary::<spec_fn(T) -> ComponentBox>())(c)
}

/// `TypeId::of::<T>()`: the identity of a type depends on the type alone.
#[verifier::external_body]
fn key_for<T: 'static>() -> (k: TypeId)
    ensures
        k == type_key::<T>(),
{
    TypeId::of::<T>()
}

/// `==` of `TypeId`: true exactly when both are the same identity.
#[verifier::external_body]
fn same_key(a: &TypeId, b: &TypeId) -> (r: bool)
    ensures
        r == (*a == *b),
{
    a == b
}

/// `Arc::new` and the coercion to `dyn Any`: the result holds `c` and
/// nothing else, so equal components give equal boxes.
#[verifier::external_body]
fn erase<T: Component + 'static>(c: T) -> (b: ComponentBox)
    ensures
        b == boxed(c),
{
    ComponentBox { value: Arc::new(c) }
}

/// `Any::downcast_ref`: a reference to the value inside the box when that
/// value is a `T`, and `None` when it is of another type.
#[verifier::external_body]
fn downcast<T: Component + 'static>(b: &ComponentBox) -> (r: Option<&T>)
    ensures
        forall|t: T| *b == boxed(t) ==> r == Some(&t),
        r matches Some(x) ==> *b == boxed(*x),
{
    b.value.downcast_ref::<T>()
}

/// `Arc::clone`: a second handle to the same immutable value.
#[verifier::external_body]
fn share(b: &ComponentBox) -> (r: ComponentBox)
    ensures
        r == *b,
{
    ComponentBox { value: Arc::clone(&b.value) }
}

/// What attaching `component` makes of `before`: an error that names the
/// component, and no change, where a component of its type is attached
/// already, else success and the component attached under the identity of
/// its type.
pub open spec fn attached<T: Component + 'static>(
    before: Map<TypeId, ComponentBox>,
    after: Map<TypeId, ComponentBox>,
    component: T,
    r: Result<(), GraphError>,
) -> bool {
    if before.contains_key(type_key::<T>()) {
        &&& r is Err
        &&& r->Err_0 is ComponentAlreadyExists
        &&& r->Err_0->ComponentAlreadyExists_0@ == component.spec_name()
        &&& after == before
    } else {
        &&& r is Ok
        &&& after == before.insert(type_key::<T>(), boxed(component))
    }
}

/// What looking up the type `T` in `m` gives: the component under the
/// identity of `T`, where there is one.
pub open spec fn looked_up<T: Component + 'static>(m: Map<TypeId, ComponentBox>, r: Option<&T>) -> bool {
    &&& !m.contains_key(type_key::<T>()) ==> r is None
    &&& forall|t: T| m.contains_key(type_key::<T>()) && m[type_key::<T>()] == boxed(t) ==> r == Some(&t)
    &&& r matches Some(x) ==> m.contains_key(type_key::<T>()) && m[type_key::<T>()] == boxed(*x)
}

/// What detaching the type `T` from `before` gives: the component that was
/// under the identity of `T`, and the others left as they were.
pub open spec fn detached<T: Component + 'static>(
    before: Map<TypeId, ComponentBox>,
    after: Map<TypeId, ComponentBox>,
    r: Option<ComponentBox>,
) -> bool {
    &&& r == if before.contains_key(type_key::<T>()) {
        Some(before[type_key::<T>()])
    } else {
        None
    }
    &&& after == before.remove(type_key::<T>())
}

impl ComponentBox {
    /// Erases the type of `component`.
    pub fn new<T: Component + 'static>(component: T) -> (b: ComponentBox)
        ensures
            b == boxed(component),
    {
        erase(component)
    }

    /// The component inside, if it is a `T`.
    pub fn downcast_ref<T: Component + 'static>(&self) -> (r: Option<&T>)
        ensures
            forall|t: T| *self == boxed(t) ==> r == Some(&t),
            r matches Some(x) ==> *self == boxed(*x),
    {
        downcast::<T>(self)
    }
}

impl Clone for ComponentBox {
    fn clone(&self) -> (r: Self)
        ensures
            r == *self,
    {
        share(self)
    }
}

/// One attached component: the identity of its type, its name, its value.
#[derive(Debug)]
pub struct ComponentSlot {
    pub key: TypeId,
    pub name: &'static str,
    pub value: ComponentBox,
}

/// The components attached to one node or edge, keyed by their type.
#[derive(Debug)]
pub struct ComponentStorage {
    slots: Vec<ComponentSlot>,
}

impl View for ComponentStorage {
    type V = Map<TypeId, ComponentBox>;

    /// The attached components by the identity of their type.
    closed spec fn view(&self) -> Map<TypeId, ComponentBox> {
        Map::new(
            |k: TypeId| self.keys().contains(k),
            |k: TypeId| self.slots@[self.keys().index_of(k)].value,
        )
    }
}

impl ComponentStorage {
    /// The type identities in the order in which they were attached.
    pub closed spec fn keys(&self) -> Seq<TypeId> {
        Seq::new(self.slots@.len(), |i: int| self.slots@[i].key)
    }

    /// The name under which the component with the type identity `k` was
    /// attached.
    pub closed spec fn name_of(&self, k: TypeId) -> Seq<char> {
        self.slots@[self.keys().index_of(k)].name@
    }

    #[verifier::type_invariant]
    spec fn inv(&self) -> bool {
        self.keys().no_duplicates()
    }

    proof fn lemma_view(&self)
        requires
            self.inv(),
        ensures
            self@.dom() == self.keys().to_set(),
            self@.dom().finite(),
            self@.dom().len() == self.slots@.len(),
            forall|i: int|
                0 <= i < self.slots@.len() ==> self@.contains_key(#[trigger] self.slots@[i].key)
                    && self@[self.slots@[i].key] == self.slots@[i].value && self.name_of(
                    self.slots@[i].key,
                ) == self.slots@[i].name@,
    {
        let keys = self.keys();
        assert(self@.dom() =~= keys.to_set());
        keys.unique_seq_to_set();
        vstd::seq_lib::seq_to_set_is_finite(keys);
        assert forall|i: int| 0 <= i < self.slots@.len() implies self@.contains_key(
            #[trigger] self.slots@[i].key,
        ) && self@[self.slots@[i].key] == self.slots@[i].value && self.name_of(self.slots@[i].key)
            == self.slots@[i].name@ by {
            assert(keys[i] == self.slots@[i].key);
            let j = keys.index_of(keys[i]);
            assert(keys[j] == keys[i]);
        }
    }

    /// An empty storage.
    pub fn new() -> (s: Self)
        ensures
            s@ == Map::<TypeId, ComponentBox>::empty(),
            s@.dom().finite(),
    {
        let s = ComponentStorage { slots: Vec::new() };
        proof {
            assert(s.keys() =~= Seq::<TypeId>::empty());
            assert(s@ =~= Map::<TypeId, ComponentBox>::empty());
        }
        s
    }

    fn find(&self, k: &TypeId) -> (r: Option<usize>)
        ensures
            match r {
                Some(i) => i < self.slots@.len() && self.slots@[i as int].key == *k,
                None => !self.keys().contains(*k),
            },
    {
        let mut i: usize = 0;
        while i < self.slots.len()
            invariant
                i <= self.slots@.len(),
                forall|j: int| 0 <= j < i ==> self.slots@[j].key != *k,
            decreases self.slots@.len() - i,
        {
            if same_key(&self.slots[i].key, k) {
                return Some(i);
            }
            i += 1;
        }
        proof {
            let keys = self.keys();
            if keys.contains(*k) {
                let j = choose|j: int| 0 <= j < keys.len() && keys[j] == *k;
                assert(self.slots@[j].key == *k);
            }
        }
        None
    }

    /// Attaches `component`, unless one of its type is attached already.
    pub fn add<T: Component + 'static>(&mut self, component: T) -> (r: Result<(), GraphError>)
        ensures
            attached(old(self)@, final(self)@, component, r),
            old(self)@.dom().finite(),
            final(self)@.dom().finite(),
            r is Ok ==> final(self).name_of(type_key::<T>()) == component.spec_name(),
            forall|q: TypeId| old(self)@.contains_key(q) ==> final(self).name_of(q) == old(self).name_of(q),
    {
        proof {
            use_type_invariant(&*self);
            self.lemma_view();
        }
        let k = key_for::<T>();
        let name = component.component_name();
        match self.find(&k) {
            Some(_) => Err(GraphError::ComponentAlreadyExists(name.to_owned())),
            None => {
                let ghost before = *self;
                let value = erase(component);
                let mut slots: Vec<ComponentSlot> = Vec::new();
                proof {
                    assert(Seq::new(slots@.len(), |i: int| slots@[i].key) =~= Seq::<TypeId>::empty());
                }
                std::mem::swap(&mut slots, &mut self.slots);
                slots.push(ComponentSlot { key: k, name, value });
                proof {
                    let keys0 = before.keys();
                    let keys1 = Seq::new(slots@.len(), |i: int| slots@[i].key);
                    assert(keys1 =~= keys0.push(k));
                    assert(keys1.no_duplicates());
                }
                self.slots = slots;
                proof {
                    let keys0 = before.keys();
                    let keys1 = self.keys();
                    assert(keys1 =~= keys0.push(k));
                    self.lemma_view();
                    before.lemma_view();
                    assert forall|q: TypeId| self@.contains_key(q) implies self@[q] == before@.insert(
                        k,
                        value,
                    )[q] by {
                        let j = keys1.index_of(q);
                        assert(keys1[j] == q);
                        if j < keys0.len() {
                            assert(keys0[j] == q);
                            assert(self.slots@[j] == before.slots@[j]);
                        }
                    }
                    assert forall|q: TypeId| before@.contains_key(q) implies self.name_of(q)
                        == before.name_of(q) by {
                        let j = keys0.index_of(q);
                        assert(keys0[j] == q);
                        assert(self.slots@[j] == before.slots@[j]);
                        assert(self.slots@[j].key == q);
                        assert(before.slots@[j].key == q);
                    }
                    assert(self.slots@[keys0.len() as int].key == k);
                    assert(self@.dom() =~= before@.dom().insert(k)) by {
                        assert forall|q: TypeId| keys1.contains(q) == (keys0.contains(q) || q == k) by {
                            if keys1.contains(q) {
                                let j = keys1.index_of(q);
                                if j < keys0.len() {
                                    assert(keys0[j] == q);
                                }
                            }
                            if keys0.contains(q) {
                                let j = keys0.index_of(q);
                                assert(keys1[j] == q);
                            }
                            if q == k {
                                assert(keys1[keys0.len() as int] == k);
                            }
                        }
                    }
                    assert(self@ =~= before@.insert(k, value));
                }
                Ok(())
            },
        }
    }

    /// The attached component of type `T`.
    pub fn get<T: Component + 'static>(&self) -> (r: Option<&T>)
        ensures
            looked_up(self@, r),
    {
        proof {
            use_type_invariant(self);
            self.lemma_view();
        }
        let k = key_for::<T>();
        match self.find(&k) {
            Some(i) => downcast::<T>(&self.slots[i].value),
            None => None,
        }
    }

    /// Detaches the component of type `T` and hands it out.
    pub fn remove<T: Component + 'static>(&mut self) -> (r: Option<ComponentBox>)
        ensures
            detached::<T>(old(self)@, final(self)@, r),
            old(self)@.dom().finite(),
            final(self)@.dom().finite(),
            forall|q: TypeId| final(self)@.contains_key(q) ==> final(self).name_of(q) == old(self).name_of(q),
    {
        proof {
            use_type_invariant(&*self);
            self.lemma_view();
        }
        let k = key_for::<T>();
        match self.find(&k) {
            Some(i) => {
                let ghost before = *self;
                let mut slots: Vec<ComponentSlot> = Vec::new();
                proof {
                    assert(Seq::new(slots@.len(), |i: int| slots@[i].key) =~= Seq::<TypeId>::empty());
                }
                std::mem::swap(&mut slots, &mut self.slots);
                let slot = slots.remove(i);
                proof {
                    let keys0 = before.keys();
                    let keys1 = Seq::new(slots@.len(), |i: int| slots@[i].key);
                    assert(keys1 =~= keys0.remove(i as int));
                    assert(keys1.no_duplicates()) by {
                        assert forall|a: int, b: int|
                            0 <= a < keys1.len() && 0 <= b < keys1.len() && a != b implies keys1[a]
                            != keys1[b] by {
                            let a0 = if a < i { a } else { a + 1 };
                            let b0 = if b < i { b } else { b + 1 };
                            assert(keys1[a] == keys0[a0]);
                            assert(keys1[b] == keys0[b0]);
                        }
                    }
                }
                self.slots = slots;
                proof {
                    let keys0 = before.keys();
                    let keys1 = self.keys();
                    assert(keys1 =~= keys0.remove(i as int));
                    self.lemma_view();
                    assert forall|q: TypeId| keys1.contains(q) == (keys0.contains(q) && q != k) by {
                        if keys1.contains(q) {
                            let j = keys1.index_of(q);
                            let j0 = if j < i { j } else { j + 1 };
                            assert(keys0[j0] == q);
                            assert(keys0[i as int] == k);
                        }
                        if keys0.contains(q) && q != k {
                            let j0 = keys0.index_of(q);
                            assert(keys0[j0] == q);
                            let j = if j0 < i { j0 } else { j0 - 1 };
                            assert(keys1[j] == q);
                        }
                    }
                    assert forall|q: TypeId| self@.contains_key(q) implies self@[q] == before@[q] by {
                        let j = keys1.index_of(q);
                        assert(keys1[j] == q);
                        let j0 = if j < i { j } else { j + 1 };
                        assert(self.slots@[j] == before.slots@[j0]);
                        assert(before.slots@[j0].key == q);
                        assert(self.slots@[j].key == q);
                    }
                    assert(self@ =~= before@.remove(k));
                }
                Some(slot.value)
            },
            None => {
                proof {
                    assert(self@ =~= self@.remove(k));
                }
                None
            },
        }
    }

    /// Whether a component of type `T` is attached.
    pub fn has<T: Component + 'static>(&self) -> (r: bool)
        ensures
            r == self@.contains_key(type_key::<T>()),
    {
        proof {
            use_type_invariant(self);
            self.lemma_view();
        }
        let k = key_for::<T>();
        self.find(&k).is_some()
    }

    /// The attached components in the order in which they were attached,
    /// each with the identity and the name of its type.
    pub fn iter(&self) -> (r: &Vec<ComponentSlot>)
        ensures
            r@.len() == self@.len(),
            forall|i: int|
                0 <= i < r@.len() ==> self@.contains_key(#[trigger] r@[i].key) && self@[r@[i].key]
                    == r@[i].value && r@[i].name@ == self.name_of(r@[i].key),
            forall|i: int, j: int| 0 <= i < j < r@.len() ==> r@[i].key != r@[j].key,
    {
        proof {
            use_type_invariant(self);
            self.lemma_view();
            assert forall|i: int, j: int| 0 <= i < j < self.slots@.len() implies self.slots@[i].key
                != self.slots@[j].key by {
                assert(self.keys()[i] == self.slots@[i].key);
                assert(self.keys()[j] == self.slots@[j].key);
            }
        }
        &self.slots
    }

    /// The number of attached components.
    pub fn len(&self) -> (r: usize)
        ensures
            r == self@.len(),
            self@.dom().finite(),
    {
        proof {
            use_type_invariant(self);
            self.lemma_view();
        }
        self.slots.len()
    }

    /// Whether nothing is attached.
    pub fn is_empty(&self) -> (r: bool)
        ensures
            r == (self@.len() == 0),
            self@.dom().finite(),
    {
        proof {
            use_type_invariant(self);
            self.lemma_view();
        }
        self.slots.len() == 0
    }
}

impl Clone for ComponentStorage {
    /// A storage with the same components; the values are shared, which a
    /// reader cannot tell from a copy because components are immutable.
    fn clone(&self) -> (r: Self)
        ensures
            r@ == self@,
            r@.dom().finite(),
            forall|q: TypeId| r.name_of(q) == self.name_of(q),
    {
        proof {
            use_type_invariant(self);
        }
        let mut slots: Vec<ComponentSlot> = Vec::new();
        let mut i: usize = 0;
        while i < self.slots.len()
            invariant
                i <= self.slots@.len(),
                slots@.len() == i,
                forall|j: int| 0 <= j < i ==> slots@[j] == self.slots@[j],
            decreases self.slots@.len() - i,
        {
            let s = &self.slots[i];
            slots.push(ComponentSlot { key: s.key, name: s.name, value: share(&s.value) });
            i += 1;
        }
        proof {
            assert(slots@ =~= self.slots@);
            assert(Seq::new(slots@.len(), |i: int| slots@[i].key) =~= self.keys());
        }
        let r = ComponentStorage { slots };
        proof {
            assert(r.slots@ =~= self.slots@);
            assert(r.keys() =~= self.keys());
            assert(r@ =~= self@);
            self.lemma_view();
        }
        r
    }
}

impl Default for ComponentStorage {
    fn default() -> (s: Self)
        ensures
            s@ == Map::<TypeId, ComponentBox>::empty(),
            s@.dom().finite(),
    {
        ComponentStorage::new()
    }
}

/// A component that has just been attached is found again, unchanged.
pub proof fn lemma_add_then_get<T: Component + 'static>(
    before: Map<TypeId, ComponentBox>,
    after: Map<TypeId, ComponentBox>,
    component: T,
    added: Result<(), GraphError>,
    found: Option<&T>,
)
    requires
        attached(before, after, component, added),
        added is Ok,
        looked_up(after, found),
    ensures
        found == Some(&component),
{
}

/// After the component of a type is detached no component of that type is
/// attached, and the others are as they were.
pub proof fn lemma_remove_then_has<T: Component + 'static>(
    before: Map<TypeId, ComponentBox>,
    after: Map<TypeId, ComponentBox>,
    removed: Option<ComponentBox>,
)
    requires
        detached::<T>(before, after, removed),
    ensures
        !after.contains_key(type_key::<T>()),
        forall|k: TypeId|
            k != type_key::<T>() ==> after.contains_key(k) == before.contains_key(k) && (
            after.contains_key(k) ==> after[k] == before[k]),
{
}

} // verus!
