//! Arguments of functions, processes, and entities.

use crate::ty::Type;
use crate::value::{ArgumentRef, ValueId};
use vstd::prelude::*;

verus! {

/// A function argument or process/entity input or output.
pub struct Argument {
    id: ArgumentRef,
    ty: Type,
    name: Option<String>,
}

impl Argument {
    /// The reference of the argument.
    pub closed spec fn spec_id(&self) -> ArgumentRef {
        self.id
    }

    /// The type of the argument.
    pub closed spec fn spec_ty(&self) -> Type {
        self.ty
    }

    /// The name of the argument.
    pub closed spec fn spec_name(&self) -> Option<Seq<char>> {
        match self.name {
            Some(n) => Some(n@),
            None => None,
        }
    }

    /// Create a new unnamed argument of the given type, with the id the
    /// caller allocated for it.
    pub fn new(id: ValueId, ty: Type) -> (a: Argument)
        ensures
            a.spec_id() == ArgumentRef(id),
            a.spec_ty() == ty,
            a.spec_name() is None,
    {
        Argument { id: ArgumentRef::new(id), ty, name: None }
    }

    /// Obtain a reference to this argument.
    pub fn as_ref(&self) -> (r: ArgumentRef)
        ensures
            r == self.spec_id(),
    {
        self.id
    }

    /// Set the name of the argument.
    pub fn set_name(&mut self, name: String)
        ensures
            final(self).spec_name() == Some(name@),
            final(self).spec_id() == old(self).spec_id(),
            final(self).spec_ty() == old(self).spec_ty(),
    {
        self.name = Some(name);
    }

    /// The type of the argument.
    pub fn ty(&self) -> (t: Type)
        ensures
            t == self.spec_ty(),
    {
        self.ty.duplicate()
    }

    /// The name of the argument.
    pub fn name(&self) -> (n: Option<&str>)
        ensures
            n is Some == self.spec_name() is Some,
            n is Some ==> n->0@ == self.spec_name()->0,
    {
        match &self.name {
            Some(n) => Some(n.as_str()),
            None => None,
        }
    }
}

} // verus!
