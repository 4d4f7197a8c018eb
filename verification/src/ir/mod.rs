//! Representation of functions: entities, types, instructions, the data flow
//! graph, the layout of blocks and instructions, and value locations.

pub mod dfg;
pub mod entities;
pub mod instructions;
pub mod layout;
pub mod types;
pub mod valueloc;

pub use crate::ir::dfg::{DataFlowGraph, DfgView, ValueData, ValueDef};
pub use crate::ir::entities::{Ebb, Inst, StackSlot, Value};
pub use crate::ir::instructions::{InstView, InstructionData, InstructionFormat, Opcode};
pub use crate::ir::layout::{Cursor, CursorPosition, CursorView, Layout, LayoutView};
pub use crate::ir::types::{LaneKind, Type};
pub use crate::ir::valueloc::{ArgumentLoc, DisplayArgumentLoc, DisplayValueLoc, ValueLoc};
