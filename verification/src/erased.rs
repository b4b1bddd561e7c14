//! Type identity and type-erased boxes.
//!
//! Columns and registries of different value and kind types are kept side by
//! side, keyed by the `TypeId` of their type. What Verus cannot see through is
//! kept here: `TypeId` is opaque, and `AnyBox` holds a `Box<dyn Any>`, which
//! Verus refuses, behind a struct whose body it does not read.
use core::any::{Any, TypeId};
use vstd::prelude::*;

verus! {

#[verifier::external_type_specification]
#[verifier::external_body]
pub struct ExTypeId(TypeId);

/// Calls `TypeId::of::<T>()`. Nothing is stated of the result: which
/// identifier a type gets is not a function of values that a contract can
/// name.
#[verifier::external_body]
pub(crate) fn type_key<T: ?Sized + 'static>() -> TypeId {
    TypeId::of::<T>()
}

/// Calls `<TypeId as PartialEq>::eq`; claims that two type identifiers
/// compare equal exactly when they are the same value.
#[verifier::external_body]
pub(crate) fn same_type(a: &TypeId, b: &TypeId) -> (r: bool)
    ensures
        r == (*a == *b),
{
    *a == *b
}

/// A value of some `'static` type with the type forgotten: a
/// `Box<dyn Any + Send + Sync>`.
#[verifier::external_body]
pub(crate) struct AnyBox {
    value: Box<dyn Any + Send + Sync>,
}

impl AnyBox {
    /// Calls `Box::new` and forgets the type. Nothing is stated of the result:
    /// its content is opaque.
    #[verifier::external_body]
    pub(crate) fn new<T: Send + Sync + 'static>(v: T) -> AnyBox {
        AnyBox { value: Box::new(v) }
    }

    /// Calls `<dyn Any>::downcast_ref::<T>()`. Nothing is stated of the
    /// result: whether the box holds a `T` is not visible to contracts.
    #[verifier::external_body]
    pub(crate) fn downcast_ref<T: 'static>(&self) -> Option<&T> {
        self.value.downcast_ref::<T>()
    }

    /// Calls `<dyn Any>::downcast_mut::<T>()`. Nothing is stated of the
    /// result.
    #[verifier::external_body]
    pub(crate) fn downcast_mut<T: 'static>(&mut self) -> Option<&mut T> {
        self.value.downcast_mut::<T>()
    }

    /// Calls `Box::<dyn Any>::downcast::<T>()` and unboxes the value; the box
    /// comes back unchanged when it does not hold a `T`, which is all that is
    /// claimed.
    #[verifier::external_body]
    pub(crate) fn downcast<T: 'static>(self) -> (r: Result<T, AnyBox>)
        ensures
            r matches Err(b) ==> b == self,
    {
        match self.value.downcast::<T>() {
            Ok(b) => Ok(*b),
            Err(value) => Err(AnyBox { value }),
        }
    }
}

} // verus!
