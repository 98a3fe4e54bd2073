//! The handles used to refer to the objects of a unit.

use vstd::prelude::*;

verus! {

/// An instruction.
#[derive(Clone, Copy, PartialEq, Eq, Structural, Hash, Debug, PartialOrd, Ord)]
pub struct Inst(pub u32);

/// A value.
#[derive(Clone, Copy, PartialEq, Eq, Structural, Hash, Debug, PartialOrd, Ord)]
pub struct Value(pub u32);

/// A basic block.
#[derive(Clone, Copy, PartialEq, Eq, Structural, Hash, Debug, PartialOrd, Ord)]
pub struct Block(pub u32);

/// An argument of a `Function`, `Process`, or `Entity`.
#[derive(Clone, Copy, PartialEq, Eq, Structural, Hash, Debug, PartialOrd, Ord)]
pub struct Arg(pub u32);

/// An external `Function`, `Process` or `Entity`.
#[derive(Clone, Copy, PartialEq, Eq, Structural, Hash, Debug, PartialOrd, Ord)]
pub struct ExtUnit(pub u32);

impl Inst {
    /// Create a handle from a table index.
    pub fn new(index: usize) -> (k: Self)
        requires
            index <= u32::MAX,
        ensures
            k.0 == index,
    {
        Inst(index as u32)
    }

    /// The table index of this handle.
    pub fn index(self) -> (i: usize)
        ensures
            i == self.0,
    {
        self.0 as usize
    }
}

impl Value {
    /// Create a handle from a table index.
    pub fn new(index: usize) -> (k: Self)
        requires
            index <= u32::MAX,
        ensures
            k.0 == index,
    {
        Value(index as u32)
    }

    /// The table index of this handle.
    pub fn index(self) -> (i: usize)
        ensures
            i == self.0,
    {
        self.0 as usize
    }

    /// A placeholder for invalid values.
    ///
    /// This is used for unused instruction arguments.
    pub fn invalid() -> (v: Self)
        ensures
            v.0 == u32::MAX,
    {
        Value(u32::MAX)
    }

    /// Check if this is a placeholder for invalid values.
    pub fn is_invalid(&self) -> (b: bool)
        ensures
            b == (self.0 == u32::MAX),
    {
        self.0 == u32::MAX
    }
}

impl Block {
    /// Create a handle from a table index.
    pub fn new(index: usize) -> (k: Self)
        requires
            index <= u32::MAX,
        ensures
            k.0 == index,
    {
        Block(index as u32)
    }

    /// The table index of this handle.
    pub fn index(self) -> (i: usize)
        ensures
            i == self.0,
    {
        self.0 as usize
    }

    /// A placeholder for invalid blocks.
    ///
    /// This is used for unused instruction arguments.
    pub fn invalid() -> (b: Self)
        ensures
            b.0 == u32::MAX,
    {
        Block(u32::MAX)
    }

    /// Check if this is a placeholder for invalid blocks.
    pub fn is_invalid(&self) -> (b: bool)
        ensures
            b == (self.0 == u32::MAX),
    {
        self.0 == u32::MAX
    }
}

impl Arg {
    /// Create a handle from a table index.
    pub fn new(index: usize) -> (k: Self)
        requires
            index <= u32::MAX,
        ensures
            k.0 == index,
    {
        Arg(index as u32)
    }

    /// The table index of this handle.
    pub fn index(self) -> (i: usize)
        ensures
            i == self.0,
    {
        self.0 as usize
    }
}

impl ExtUnit {
    /// Create a handle from a table index.
    pub fn new(index: usize) -> (k: Self)
        requires
            index <= u32::MAX,
        ensures
            k.0 == index,
    {
        ExtUnit(index as u32)
    }

    /// The table index of this handle.
    pub fn index(self) -> (i: usize)
        ensures
            i == self.0,
    {
        self.0 as usize
    }
}

/// A function, process, or entity in a module.
#[derive(Clone, Copy, PartialEq, Eq, Structural, Hash, Debug, PartialOrd, Ord)]
pub struct UnitId(pub u32);

impl UnitId {
    /// Create a handle from a table index.
    pub fn new(index: usize) -> (k: Self)
        requires
            index <= u32::MAX,
        ensures
            k.0 == index,
    {
        UnitId(index as u32)
    }

    /// The table index of this handle.
    pub fn index(self) -> (i: usize)
        ensures
            i == self.0,
    {
        self.0 as usize
    }

    /// A placeholder for units that are not part of a module.
    pub fn invalid() -> (u: Self)
        ensures
            u.0 == u32::MAX,
    {
        UnitId(u32::MAX)
    }

    /// Check if this is the placeholder for units outside a module.
    pub fn is_invalid(&self) -> (b: bool)
        ensures
            b == (self.0 == u32::MAX),
    {
        self.0 == u32::MAX
    }
}

/// Any one of the handles of a unit.
#[derive(Clone, Copy, PartialEq, Eq, Structural, Debug)]
pub enum AnyObject {
    Inst(Inst),
    Value(Value),
    Block(Block),
    Arg(Arg),
}

} // verus!
