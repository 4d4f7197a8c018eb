//! Value splitting for an SSA intermediate representation.
//!
//! Some value types are too large for the registers of a target, so values of
//! such types are split into two halves that the target can operate on. This
//! crate holds a small SSA function representation (`ir`), the predecessor
//! lists of its control flow graph (`flowgraph`) and the legalizer pass that
//! splits values and repairs the branches that pass them to split block
//! parameters (`legalizer::split`).
//!
//! Every function is verified. The contracts are stated over the
//! mathematical views of the data structures: `DfgView` for the data flow
//! graph, `LayoutView` for the layout, sequences of predecessors for the
//! control flow graph. The other modules of `legalizer` say what the pass
//! asks and leaves behind:
//!
//! - `consistency`: the function is well formed, and its branches pass what
//!   the blocks they go to expect;
//! - `tracking`: what the parameters and the branch arguments are after
//!   parameters were split;
//! - `placement`: where the instructions that were added stand;
//! - `semantics`: what splitting and concatenating compute, and why the two
//!   halves of a value stand for the value;
//! - `repairing` and `mending`: what holds while repairs are due.

pub mod flowgraph;
pub mod ir;
pub mod legalizer;
