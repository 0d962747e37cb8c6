//! Shared ownership and identifiers.
use std::sync::Arc;
use uuid::Uuid;
use vstd::prelude::*;

verus! {

/// `uuid::Uuid`, a 128-bit identifier.
#[verifier::external_type_specification]
#[verifier::external_body]
pub struct ExUuid(Uuid);

/// `<Uuid as PartialEq>::eq`: whether two identifiers are the same. The outside
/// impl is derived over the sixteen bytes that make up the identifier.
#[verifier::external_body]
pub(crate) fn same_uuid(a: &Uuid, b: &Uuid) -> (same: bool)
    ensures
        same == (*a == *b),
{
    a == b
}

/// `Arc::clone`: another owner of the same value.
#[verifier::external_body]
pub(crate) fn share<T>(owner: &Arc<T>) -> (other: Arc<T>)
    ensures
        other == *owner,
{
    Arc::clone(owner)
}

} // verus!
