//! A zero-sized marker that stands for a type.

use std::any::TypeId;
use std::marker::PhantomData;
use vstd::prelude::*;

verus! {

/// `std::any::TypeId`, the identity of a type, carried through opaquely.
#[verifier::external_type_specification]
#[verifier::external_body]
pub struct ExTypeId(TypeId);

/// Calls `std::any::TypeId::of::<T>()`. Nothing is claimed of the result:
/// the identity of a type has no model here.
#[verifier::external_body]
fn type_id_of<T: ?Sized + 'static>() -> TypeId {
    TypeId::of::<T>()
}

/// Calls `<TypeId as PartialEq>::eq`. The claim: the result is `true` exactly
/// when the two identities are the same value.
#[verifier::external_body]
fn type_id_eq(a: &TypeId, b: &TypeId) -> (r: bool)
    ensures
        r == (*a == *b),
{
    *a == *b
}

/// A marker standing for the type `T`.
pub struct Type<T: 'static> {
    obj: PhantomData<T>,
}

impl<T: 'static> Type<T> {
    /// The marker for `T`.
    pub fn new() -> Type<T> {
        Type { obj: PhantomData }
    }

    /// The marker for the type of the given value.
    pub fn from_struct(_obj: &T) -> Type<T> {
        Type { obj: PhantomData }
    }

    /// Whether `T` and `U` are the same type, decided by comparing their
    /// `TypeId`s.
    pub fn is_type<U: 'static>(&self) -> bool {
        let a = type_id_of::<T>();
        let b = type_id_of::<U>();
        type_id_eq(&a, &b)
    }
}

} // verus!
