//! The predecessors of the blocks of a function.
//!
//! The control flow graph records, for each block, the branches that go to
//! it: pairs of the block that holds the branch and the branch instruction.
//! A branch that is recorded twice for a block is a predecessor twice.

use crate::ir::entities::{Ebb, Inst};
use vstd::prelude::*;

verus! {

/// The predecessor lists of the blocks of a function.
pub struct ControlFlowGraph {
    preds: Vec<Vec<(Ebb, Inst)>>,
}

impl View for ControlFlowGraph {
    type V = Seq<Seq<(Ebb, Inst)>>;

    /// The predecessors of each block, by block index, in the order in which
    /// they were added.
    closed spec fn view(&self) -> Seq<Seq<(Ebb, Inst)>> {
        Seq::new(self.preds@.len(), |e: int| self.preds@[e]@)
    }
}

impl ControlFlowGraph {
    /// A graph for the first `num_ebbs` blocks of a function, none of which
    /// has a predecessor yet.
    pub fn with_ebbs(num_ebbs: usize) -> (cfg: ControlFlowGraph)
        ensures
            cfg@ == Seq::new(num_ebbs as nat, |e: int| Seq::<(Ebb, Inst)>::empty()),
    {
        let mut preds: Vec<Vec<(Ebb, Inst)>> = Vec::new();
        while preds.len() < num_ebbs
            invariant
                preds@.len() <= num_ebbs,
                forall|e: int| 0 <= e < preds@.len() ==> (#[trigger] preds@[e])@.len() == 0,
            decreases num_ebbs - preds@.len(),
        {
            preds.push(Vec::new());
        }
        let cfg = ControlFlowGraph { preds };
        assert(cfg@ =~~= Seq::new(num_ebbs as nat, |e: int| Seq::<(Ebb, Inst)>::empty()));
        cfg
    }

    /// The number of blocks that the graph has predecessor lists for.
    pub fn num_ebbs(&self) -> (n: usize)
        ensures
            n == self@.len(),
    {
        self.preds.len()
    }

    /// Record that the branch `from_inst` in the block `from` goes to `to`.
    pub fn add_edge(&mut self, from: Ebb, from_inst: Inst, to: Ebb)
        requires
            to.0 < old(self)@.len(),
        ensures
            final(self)@ == old(self)@.update(
                to.0 as int,
                old(self)@[to.0 as int].push((from, from_inst)),
            ),
    {
        self.preds[to.0].push((from, from_inst));
        assert(self@ =~~= old(self)@.update(
            to.0 as int,
            old(self)@[to.0 as int].push((from, from_inst)),
        ));
    }

    /// The predecessors of `ebb`: the branches recorded for it, in the order
    /// in which they were added.
    pub fn get_predecessors(&self, ebb: Ebb) -> (preds: &Vec<(Ebb, Inst)>)
        requires
            ebb.0 < self@.len(),
        ensures
            preds@ == self@[ebb.0 as int],
    {
        &self.preds[ebb.0]
    }
}

} // verus!
