//! Matching on the runtime type of a value.
use vstd::prelude::*;
use std::any::TypeId;

verus! {

#[verifier::external_type_specification]
#[verifier::external_body]
pub struct ExTypeId(TypeId);

/// Relies on `std::any::TypeId::of`: the identifier of the type `T`.
#[verifier::external_body]
fn type_id_of<T: 'static>() -> (r: TypeId) {
    TypeId::of::<T>()
}

/// Relies on `PartialEq` for `std::any::TypeId`: two identifiers compare
/// equal exactly when they are the same identifier.
#[verifier::external_body]
fn same_type_id(a: &TypeId, b: &TypeId) -> (r: bool)
    ensures
        r == (*a == *b),
{
    *a == *b
}

/// A matcher that accepts values of one type.
pub struct TypeOf(pub TypeId);

/// The matcher for values of type `T`.
pub fn type_of<T: 'static>() -> (r: TypeOf) {
    TypeOf(type_id_of::<T>())
}

impl TypeOf {
    /// The outcome of matching a value whose type has the identifier `id`.
    pub open spec fn outcome(&self, id: TypeId) -> Result<(), TypeId> {
        if self.0 == id {
            Ok(())
        } else {
            Err(id)
        }
    }

    /// Succeeds when `id` is the identifier this matcher holds; otherwise
    /// hands `id` back for reporting.
    pub fn matches_id(&self, id: TypeId) -> (r: Result<(), TypeId>)
        ensures
            r == self.outcome(id),
    {
        if same_type_id(&self.0, &id) {
            Ok(())
        } else {
            Err(id)
        }
    }

    /// Succeeds when `T` is the type this matcher was made for; otherwise
    /// hands back the identifier of `T` for reporting.
    pub fn matches<T: 'static>(&self, actual: T) -> (r: Result<(), TypeId>)
        ensures
            exists|id: TypeId| r == self.outcome(id),
    {
        let id = type_id_of::<T>();
        self.matches_id(id)
    }
}

} // verus!
