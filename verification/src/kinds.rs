//! The component types that the library brings, and their identities.

use std::any::TypeId;
use vstd::prelude::*;

use crate::cid_dag::CidReference;
use crate::component::type_key;
use crate::subgraph::Subgraph;
use crate::types::GraphReference;
use crate::types::Label;
use crate::types::Metadata;

verus! {

/// The identities of `Label`, `Metadata`, `GraphReference`, `CidReference`
/// and `Subgraph<N, E>`, in this order.
pub open spec fn own_key_seq<N: 'static, E: 'static>() -> Seq<TypeId> {
    seq![
        type_key::<Label>(),
        type_key::<Metadata>(),
        type_key::<GraphReference>(),
        type_key::<CidReference>(),
        type_key::<Subgraph<N, E>>(),
    ]
}

/// `TypeId::of` for each of the five types: the identity of a type is
/// unique to it, so those of different types differ.
#[verifier::external_body]
fn own_keys<N: 'static, E: 'static>() -> (r: [TypeId; 5])
    ensures
        r@ == (own_key_seq::<N, E>()),
        r@.no_duplicates(),
{
    [
        TypeId::of::<Label>(),
        TypeId::of::<Metadata>(),
        TypeId::of::<GraphReference>(),
        TypeId::of::<CidReference>(),
        TypeId::of::<Subgraph<N, E>>(),
    ]
}

/// The identities of the component types that the library brings, each
/// different from the others: a component of one of these types is never
/// found under another of them.
pub fn own_component_keys<N: 'static, E: 'static>() -> (r: [TypeId; 5])
    ensures
        r@ == own_key_seq::<N, E>(),
        r@.no_duplicates(),
        forall|i: int, j: int| 0 <= i < j < 5 ==> own_key_seq::<N, E>()[i] != own_key_seq::<N, E>()[j],
{
    own_keys::<N, E>()
}

} // verus!
