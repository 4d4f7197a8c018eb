//! Legalization: rewriting a function so that it only uses what the target
//! supports.

pub mod consistency;
pub mod mending;
pub mod placement;
pub mod repairing;
pub mod semantics;
pub mod split;
pub mod tracking;
