//! Instruction opcodes and instruction data.
//!
//! An instruction is an opcode and its operands. The shape of the operands is
//! the opcode's format. A branch carries the block it goes to and one list of
//! value operands: first the operands that the opcode fixes (the condition of
//! a conditional branch), then the arguments for the parameters of the
//! destination block.

use crate::ir::entities::{Ebb, Value};
use vstd::prelude::*;

verus! {

/// The shape of the operands of an instruction.
#[derive(Clone, Copy, Debug, PartialEq, Eq, Hash, Structural)]
pub enum InstructionFormat {
    /// No value operands.
    Nullary,
    /// One value operand.
    Unary,
    /// Two value operands.
    Binary,
    /// A destination block and a list of value operands.
    Branch,
}

/// An instruction opcode.
#[derive(Clone, Copy, Debug, PartialEq, Eq, Hash, Structural)]
pub enum Opcode {
    /// Unconditional branch.
    Jump,
    /// Branch when the condition is zero.
    Brz,
    /// Branch when the condition is not zero.
    Brnz,
    /// Integer constant.
    Iconst,
    /// Copy of a value.
    Copy,
    /// Integer addition.
    Iadd,
    /// Bitwise and.
    Band,
    /// Bitwise or.
    Bor,
    /// Bitwise exclusive or.
    Bxor,
    /// Split an integer into its low and high halves.
    Isplit,
    /// Concatenate a low and a high half to an integer.
    Iconcat,
    /// Split a vector into its low and high lanes.
    Vsplit,
    /// Concatenate two vectors to one with the lanes of both.
    Vconcat,
}

impl Opcode {
    /// The format of the instructions with this opcode.
    pub open spec fn spec_format(self) -> InstructionFormat {
        match self {
            Opcode::Jump | Opcode::Brz | Opcode::Brnz => InstructionFormat::Branch,
            Opcode::Iconst => InstructionFormat::Nullary,
            Opcode::Copy | Opcode::Isplit | Opcode::Vsplit => InstructionFormat::Unary,
            Opcode::Iadd
            | Opcode::Band
            | Opcode::Bor
            | Opcode::Bxor
            | Opcode::Iconcat
            | Opcode::Vconcat => InstructionFormat::Binary,
        }
    }

    /// Is this the opcode of a branch?
    pub open spec fn spec_is_branch(self) -> bool {
        self.spec_format() == InstructionFormat::Branch
    }

    /// The number of value operands that come before the block arguments of
    /// a branch; for any other opcode, the number of its value operands.
    pub open spec fn spec_fixed_value_arguments(self) -> usize {
        match self {
            Opcode::Jump | Opcode::Iconst => 0,
            Opcode::Brz | Opcode::Brnz | Opcode::Copy | Opcode::Isplit | Opcode::Vsplit => 1,
            Opcode::Iadd
            | Opcode::Band
            | Opcode::Bor
            | Opcode::Bxor
            | Opcode::Iconcat
            | Opcode::Vconcat => 2,
        }
    }

    /// The number of results of an instruction with this opcode.
    pub open spec fn spec_num_results(self) -> usize {
        match self {
            Opcode::Jump | Opcode::Brz | Opcode::Brnz => 0,
            Opcode::Isplit | Opcode::Vsplit => 2,
            _ => 1,
        }
    }

    /// The format of the instructions with this opcode.
    #[verifier::when_used_as_spec(spec_format)]
    pub fn format(self) -> (f: InstructionFormat)
        ensures
            f == self.spec_format(),
    {
        match self {
            Opcode::Jump | Opcode::Brz | Opcode::Brnz => InstructionFormat::Branch,
            Opcode::Iconst => InstructionFormat::Nullary,
            Opcode::Copy | Opcode::Isplit | Opcode::Vsplit => InstructionFormat::Unary,
            Opcode::Iadd
            | Opcode::Band
            | Opcode::Bor
            | Opcode::Bxor
            | Opcode::Iconcat
            | Opcode::Vconcat => InstructionFormat::Binary,
        }
    }

    /// Is this the opcode of a branch?
    #[verifier::when_used_as_spec(spec_is_branch)]
    pub fn is_branch(self) -> (b: bool)
        ensures
            b == self.spec_is_branch(),
    {
        match self {
            Opcode::Jump | Opcode::Brz | Opcode::Brnz => true,
            _ => false,
        }
    }

    /// The number of value operands that come before the block arguments of
    /// a branch; for any other opcode, the number of its value operands.
    #[verifier::when_used_as_spec(spec_fixed_value_arguments)]
    pub fn fixed_value_arguments(self) -> (n: usize)
        ensures
            n == self.spec_fixed_value_arguments(),
    {
        match self {
            Opcode::Jump | Opcode::Iconst => 0,
            Opcode::Brz | Opcode::Brnz | Opcode::Copy | Opcode::Isplit | Opcode::Vsplit => 1,
            Opcode::Iadd
            | Opcode::Band
            | Opcode::Bor
            | Opcode::Bxor
            | Opcode::Iconcat
            | Opcode::Vconcat => 2,
        }
    }

    /// The number of results of an instruction with this opcode.
    #[verifier::when_used_as_spec(spec_num_results)]
    pub fn num_results(self) -> (n: usize)
        ensures
            n == self.spec_num_results(),
    {
        match self {
            Opcode::Jump | Opcode::Brz | Opcode::Brnz => 0,
            Opcode::Isplit | Opcode::Vsplit => 2,
            _ => 1,
        }
    }
}

/// The contents of an instruction.
#[derive(Debug)]
#[allow(inconsistent_fields)]
pub enum InstructionData {
    /// An instruction without value operands.
    Nullary { opcode: Opcode },
    /// An instruction with one value operand.
    Unary { opcode: Opcode, arg: Value },
    /// An instruction with two value operands.
    Binary { opcode: Opcode, args: [Value; 2] },
    /// A branch to `destination`. The list holds the fixed operands of the
    /// opcode and then the arguments for the parameters of `destination`.
    Branch { opcode: Opcode, destination: Ebb, args: Vec<Value> },
}

/// An instruction as a mathematical value: its format, its opcode, all of its
/// value operands in order, and the destination if it is a branch.
#[verifier::ext_equal]
pub struct InstView {
    pub format: InstructionFormat,
    pub opcode: Opcode,
    pub args: Seq<Value>,
    pub destination: Option<Ebb>,
}

impl InstView {
    /// The operands agree in number with the format, and only a branch has a
    /// destination.
    pub open spec fn shaped(self) -> bool {
        match self.format {
            InstructionFormat::Nullary => self.args.len() == 0 && self.destination is None,
            InstructionFormat::Unary => self.args.len() == 1 && self.destination is None,
            InstructionFormat::Binary => self.args.len() == 2 && self.destination is None,
            InstructionFormat::Branch => self.destination is Some,
        }
    }

    /// This instruction with other value operands.
    pub open spec fn with_args(self, args: Seq<Value>) -> InstView {
        InstView { args: args, ..self }
    }

    /// The view of an instruction with one operand.
    pub open spec fn unary(opcode: Opcode, arg: Value) -> InstView {
        InstView {
            format: InstructionFormat::Unary,
            opcode: opcode,
            args: seq![arg],
            destination: None,
        }
    }

    /// The view of an instruction with two operands.
    pub open spec fn binary(opcode: Opcode, lhs: Value, rhs: Value) -> InstView {
        InstView {
            format: InstructionFormat::Binary,
            opcode: opcode,
            args: seq![lhs, rhs],
            destination: None,
        }
    }
}

impl View for InstructionData {
    type V = InstView;

    /// The format, the opcode, the operands in order and the destination.
    open spec fn view(&self) -> InstView {
        match *self {
            InstructionData::Nullary { opcode } => InstView {
                format: InstructionFormat::Nullary,
                opcode: opcode,
                args: Seq::empty(),
                destination: None,
            },
            InstructionData::Unary { opcode, arg } => InstView::unary(opcode, arg),
            InstructionData::Binary { opcode, args } => InstView::binary(opcode, args[0], args[1]),
            InstructionData::Branch { opcode, destination, args } => InstView {
                format: InstructionFormat::Branch,
                opcode: opcode,
                args: args@,
                destination: Some(destination),
            },
        }
    }
}

impl InstructionData {
    /// The opcode of this instruction.
    pub fn opcode(&self) -> (op: Opcode)
        ensures
            op == self@.opcode,
    {
        match self {
            InstructionData::Nullary { opcode } => *opcode,
            InstructionData::Unary { opcode, .. } => *opcode,
            InstructionData::Binary { opcode, .. } => *opcode,
            InstructionData::Branch { opcode, .. } => *opcode,
        }
    }

    /// The number of value operands of this instruction.
    pub fn num_args(&self) -> (n: usize)
        ensures
            n == self@.args.len(),
    {
        match self {
            InstructionData::Nullary { .. } => 0,
            InstructionData::Unary { .. } => 1,
            InstructionData::Binary { .. } => 2,
            InstructionData::Branch { args, .. } => args.len(),
        }
    }

    /// The value operand at `index`.
    pub fn arg(&self, index: usize) -> (v: Value)
        requires
            index < self@.args.len(),
        ensures
            v == self@.args[index as int],
    {
        match self {
            InstructionData::Nullary { .. } => vstd::pervasive::unreached(),
            InstructionData::Unary { arg, .. } => *arg,
            InstructionData::Binary { args, .. } => args[index],
            InstructionData::Branch { args, .. } => args[index],
        }
    }

    /// Replace the value operand at `index` by `value`.
    pub fn set_arg(&mut self, index: usize, value: Value)
        requires
            index < old(self)@.args.len(),
        ensures
            final(self)@ == old(self)@.with_args(old(self)@.args.update(index as int, value)),
    {
        match self {
            InstructionData::Nullary { .. } => {},
            InstructionData::Unary { arg, .. } => {
                *arg = value;
            },
            InstructionData::Binary { args, .. } => {
                args[index] = value;
            },
            InstructionData::Branch { args, .. } => {
                args[index] = value;
            },
        }
        assert(self@.args =~= old(self)@.args.update(index as int, value));
    }

    /// The block that this instruction branches to, if it is a branch.
    pub fn branch_destination(&self) -> (d: Option<Ebb>)
        ensures
            d == self@.destination,
    {
        match self {
            InstructionData::Branch { destination, .. } => Some(*destination),
            _ => None,
        }
    }

    /// Take the list of value operands out of a branch, leaving an empty
    /// list behind. An instruction of another format has no such list.
    pub fn take_value_list(&mut self) -> (list: Option<Vec<Value>>)
        ensures
            old(self)@.format == InstructionFormat::Branch ==> {
                &&& list is Some
                &&& list->0@ == old(self)@.args
                &&& final(self)@ == old(self)@.with_args(Seq::empty())
            },
            old(self)@.format != InstructionFormat::Branch ==> {
                &&& list is None
                &&& final(self)@ == old(self)@
            },
    {
        match self {
            InstructionData::Branch { args, .. } => {
                let mut list: Vec<Value> = Vec::new();
                core::mem::swap(args, &mut list);
                Some(list)
            },
            _ => None,
        }
    }

    /// Put a list of value operands into a branch whose list was taken.
    pub fn put_value_list(&mut self, list: Vec<Value>)
        requires
            old(self)@.format == InstructionFormat::Branch,
            old(self)@.args.len() == 0,
        ensures
            final(self)@ == old(self)@.with_args(list@),
    {
        match self {
            InstructionData::Branch { args, .. } => {
                *args = list;
            },
            _ => {},
        }
    }
}

} // verus!
