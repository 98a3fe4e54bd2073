//! References to the values of the graph-based representation.
//!
//! Every value carries a unique `ValueId`. Ids are handed out by the caller
//! that creates a value; the typed references below wrap such an id.

use crate::aggregate::AggregateKind;
use crate::konst::ConstKind;
use std::sync::Arc;
use vstd::prelude::*;

verus! {

/// A unique identifier of a value.
#[derive(Clone, Copy, PartialEq, Eq, Structural, Hash, Debug, PartialOrd, Ord)]
pub struct ValueId(pub usize);

/// The id shared by all values that are inlined into their users, such as
/// constants and aggregates.
pub fn inline_value_id() -> (id: ValueId)
    ensures
        id.0 == 0,
{
    ValueId(0)
}

/// A reference to an instruction.
#[derive(Clone, Copy, PartialEq, Eq, Structural, Hash, Debug)]
pub struct InstRef(pub ValueId);

/// A reference to a basic block.
#[derive(Clone, Copy, PartialEq, Eq, Structural, Hash, Debug)]
pub struct BlockRef(pub ValueId);

/// A reference to an argument.
#[derive(Clone, Copy, PartialEq, Eq, Structural, Hash, Debug)]
pub struct ArgumentRef(pub ValueId);

/// A reference to a function.
#[derive(Clone, Copy, PartialEq, Eq, Structural, Hash, Debug)]
pub struct FunctionRef(pub ValueId);

/// A reference to a process.
#[derive(Clone, Copy, PartialEq, Eq, Structural, Hash, Debug)]
pub struct ProcessRef(pub ValueId);

/// A reference to an entity.
#[derive(Clone, Copy, PartialEq, Eq, Structural, Hash, Debug)]
pub struct EntityRef(pub ValueId);

impl InstRef {
    /// Wrap an id.
    pub fn new(id: ValueId) -> (r: InstRef)
        ensures
            r.0 == id,
    {
        InstRef(id)
    }
}

impl BlockRef {
    /// Wrap an id.
    pub fn new(id: ValueId) -> (r: BlockRef)
        ensures
            r.0 == id,
    {
        BlockRef(id)
    }
}

impl ArgumentRef {
    /// Wrap an id.
    pub fn new(id: ValueId) -> (r: ArgumentRef)
        ensures
            r.0 == id,
    {
        ArgumentRef(id)
    }
}

impl FunctionRef {
    /// Wrap an id.
    pub fn new(id: ValueId) -> (r: FunctionRef)
        ensures
            r.0 == id,
    {
        FunctionRef(id)
    }
}

impl ProcessRef {
    /// Wrap an id.
    pub fn new(id: ValueId) -> (r: ProcessRef)
        ensures
            r.0 == id,
    {
        ProcessRef(id)
    }
}

impl EntityRef {
    /// Wrap an id.
    pub fn new(id: ValueId) -> (r: EntityRef)
        ensures
            r.0 == id,
    {
        EntityRef(id)
    }
}

/// A reference to a value.
pub enum ValueRef {
    Inst(InstRef),
    Block(BlockRef),
    Argument(ArgumentRef),
    Function(FunctionRef),
    Process(ProcessRef),
    Entity(EntityRef),
    Global,
    Const(Arc<ConstKind>),
    Aggregate(Arc<AggregateKind>),
}

impl ValueRef {
    /// A copy of this reference; constants and aggregates are shared.
    pub fn duplicate(&self) -> (r: ValueRef)
        ensures
            r == *self,
    {
        match self {
            ValueRef::Inst(x) => ValueRef::Inst(*x),
            ValueRef::Block(x) => ValueRef::Block(*x),
            ValueRef::Argument(x) => ValueRef::Argument(*x),
            ValueRef::Function(x) => ValueRef::Function(*x),
            ValueRef::Process(x) => ValueRef::Process(*x),
            ValueRef::Entity(x) => ValueRef::Entity(*x),
            ValueRef::Global => ValueRef::Global,
            ValueRef::Const(k) => ValueRef::Const(Arc::clone(k)),
            ValueRef::Aggregate(a) => ValueRef::Aggregate(Arc::clone(a)),
        }
    }
}

} // verus!
