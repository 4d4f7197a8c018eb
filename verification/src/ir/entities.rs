//! References to the entities of a function.
//!
//! Values, instructions, blocks and stack slots are referred to by small
//! index types. A reference is only meaningful together with the function
//! that created it.

use vstd::prelude::*;

verus! {

/// A reference to an SSA value.
#[derive(Clone, Copy, Debug, PartialEq, Eq, Hash, Structural)]
pub struct Value(pub usize);

impl Value {
    /// The value with the given index.
    pub fn new(index: usize) -> (v: Value)
        ensures
            v == Value(index),
    {
        Value(index)
    }

    /// The index of this value.
    pub fn index(self) -> (i: usize)
        ensures
            i == self.0,
    {
        self.0
    }
}

/// A reference to an instruction.
#[derive(Clone, Copy, Debug, PartialEq, Eq, Hash, Structural)]
pub struct Inst(pub usize);

impl Inst {
    /// The instruction with the given index.
    pub fn new(index: usize) -> (i: Inst)
        ensures
            i == Inst(index),
    {
        Inst(index)
    }

    /// The index of this instruction.
    pub fn index(self) -> (i: usize)
        ensures
            i == self.0,
    {
        self.0
    }
}

/// A reference to an extended basic block.
#[derive(Clone, Copy, Debug, PartialEq, Eq, Hash, Structural)]
pub struct Ebb(pub usize);

impl Ebb {
    /// The block with the given index.
    pub fn new(index: usize) -> (e: Ebb)
        ensures
            e == Ebb(index),
    {
        Ebb(index)
    }

    /// The index of this block.
    pub fn index(self) -> (i: usize)
        ensures
            i == self.0,
    {
        self.0
    }
}

/// A reference to a stack slot.
#[derive(Clone, Copy, Debug, PartialEq, Eq, Hash, Structural)]
pub struct StackSlot(pub u32);

impl StackSlot {
    /// The stack slot with the given index.
    pub fn new(index: u32) -> (s: StackSlot)
        ensures
            s == StackSlot(index),
    {
        StackSlot(index)
    }

    /// The index of this stack slot.
    pub fn index(self) -> (i: u32)
        ensures
            i == self.0,
    {
        self.0
    }
}

} // verus!
