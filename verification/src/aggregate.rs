//! Aggregate values such as structs and arrays.

use crate::ty::{Type, TypeKind};
use crate::value::ValueRef;
use vstd::prelude::*;

verus! {

/// The different forms an aggregate can take.
pub enum AggregateKind {
    /// A struct.
    Struct(StructAggregate),
    /// An array.
    Array(ArrayAggregate),
}

/// A struct aggregate value such as `{i32 42, i64 9001}`.
pub struct StructAggregate {
    ty: Type,
    fields: Vec<ValueRef>,
}

/// An array aggregate value such as `[42 x i64 1337]`.
pub struct ArrayAggregate {
    ty: Type,
    elements: Vec<ValueRef>,
}

impl StructAggregate {
    /// The type of the struct.
    pub closed spec fn spec_ty(&self) -> Type {
        self.ty
    }

    /// The fields of the struct.
    pub closed spec fn spec_fields(&self) -> Seq<ValueRef> {
        self.fields@
    }

    /// Create a new struct aggregate value.
    ///
    /// Constructs a new struct aggregate value with the given `fields`. The
    /// length of `fields` must match the number of fields in `ty`, and `ty`
    /// must be a struct type.
    pub fn new(ty: Type, fields: Vec<ValueRef>) -> (a: StructAggregate)
        requires
            ty is StructType,
            ty->StructType_0.seq().len() == fields@.len(),
        ensures
            a.spec_ty() == ty,
            a.spec_fields() == fields@,
    {
        StructAggregate { ty, fields }
    }

    /// Get the type of the struct.
    pub fn ty(&self) -> (t: &Type)
        ensures
            *t == self.spec_ty(),
    {
        &self.ty
    }

    /// Get the fields of the struct.
    pub fn fields(&self) -> (f: &[ValueRef])
        ensures
            f@ == self.spec_fields(),
    {
        self.fields.as_slice()
    }

    /// Get a mutable reference to the fields of the struct.
    pub fn fields_mut(&mut self) -> (f: &mut [ValueRef])
        ensures
            f@ == old(self).spec_fields(),
            final(self).spec_ty() == old(self).spec_ty(),
            final(self).spec_fields() == final(f)@,
    {
        self.fields.as_mut_slice()
    }
}

impl ArrayAggregate {
    /// The type of the array.
    pub closed spec fn spec_ty(&self) -> Type {
        self.ty
    }

    /// The elements of the array.
    pub closed spec fn spec_elements(&self) -> Seq<ValueRef> {
        self.elements@
    }

    /// Create a new array aggregate value.
    ///
    /// Constructs a new array aggregate value with the given `elements`. The
    /// length of `elements` must match the number of elements in `ty`, and `ty`
    /// must be an array type.
    pub fn new(ty: Type, elements: Vec<ValueRef>) -> (a: ArrayAggregate)
        requires
            ty is ArrayType,
            ty->ArrayType_0 == elements@.len(),
        ensures
            a.spec_ty() == ty,
            a.spec_elements() == elements@,
    {
        ArrayAggregate { ty, elements }
    }

    /// Get the type of the array.
    pub fn ty(&self) -> (t: &Type)
        ensures
            *t == self.spec_ty(),
    {
        &self.ty
    }

    /// Get the elements of the array.
    pub fn elements(&self) -> (e: &[ValueRef])
        ensures
            e@ == self.spec_elements(),
    {
        self.elements.as_slice()
    }

    /// Get a mutable reference to the elements of the array.
    pub fn fields_mut(&mut self) -> (e: &mut [ValueRef])
        ensures
            e@ == old(self).spec_elements(),
            final(self).spec_ty() == old(self).spec_ty(),
            final(self).spec_elements() == final(e)@,
    {
        self.elements.as_mut_slice()
    }
}

impl AggregateKind {
    /// The type of the aggregate.
    pub open spec fn spec_ty(&self) -> Type {
        match *self {
            AggregateKind::Struct(a) => a.spec_ty(),
            AggregateKind::Array(a) => a.spec_ty(),
        }
    }

    /// Get the type of the aggregate.
    pub fn ty(&self) -> (t: Type)
        ensures
            t == self.spec_ty(),
    {
        match self {
            AggregateKind::Struct(a) => a.ty().duplicate(),
            AggregateKind::Array(a) => a.ty().duplicate(),
        }
    }
}

} // verus!
