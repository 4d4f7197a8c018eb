//! The layout of a function: the order of its blocks and of the instructions
//! in each block, and a cursor that walks the layout and inserts
//! instructions.
//!
//! The data flow graph says what the instructions are; the layout says where
//! they stand. The first block of the layout is the entry block.

use crate::ir::entities::{Ebb, Inst};
use vstd::prelude::*;

verus! {

/// The layout as a mathematical value.
#[verifier::ext_equal]
pub struct LayoutView {
    /// The blocks in layout order.
    pub ebbs: Seq<Ebb>,
    /// The instructions of each block of the layout, in order.
    pub insts: Map<Ebb, Seq<Inst>>,
    /// The block of each instruction of the layout.
    pub inst_ebb: Map<Inst, Ebb>,
}

impl LayoutView {
    /// Is the block `ebb` in the layout?
    pub open spec fn is_ebb_inserted(self, ebb: Ebb) -> bool {
        self.ebbs.contains(ebb)
    }

    /// Is the instruction `inst` in the layout?
    pub open spec fn is_inst_inserted(self, inst: Inst) -> bool {
        self.inst_ebb.contains_key(inst)
    }

    /// The first block of the layout, if it has a block.
    pub open spec fn entry_block(self) -> Option<Ebb> {
        if self.ebbs.len() > 0 {
            Some(self.ebbs[0])
        } else {
            None
        }
    }

    /// The place of the instruction `inst` among the instructions of its
    /// block.
    pub open spec fn inst_index(self, inst: Inst) -> int {
        self.insts[self.inst_ebb[inst]].index_of(inst)
    }

    /// The instructions of block `ebb` are in the layout, in this block.
    pub open spec fn ebb_wf(self, ebb: Ebb) -> bool {
        &&& self.insts[ebb].no_duplicates()
        &&& forall|k: int|
            0 <= k < self.insts[ebb].len() ==> {
                let i = #[trigger] self.insts[ebb][k];
                self.inst_ebb.contains_key(i) && self.inst_ebb[i] == ebb
            }
    }

    /// The layout is well formed: no block stands twice in the order, the
    /// blocks of the order are those that have a list of instructions, and
    /// an instruction is in the list of exactly the block that it belongs
    /// to, once.
    pub open spec fn wf(self) -> bool {
        &&& self.ebbs.no_duplicates()
        &&& forall|e: Ebb| #[trigger] self.insts.contains_key(e) <==> self.ebbs.contains(e)
        &&& forall|e: Ebb| self.insts.contains_key(e) ==> #[trigger] self.ebb_wf(e)
        &&& forall|i: Inst| #[trigger]
            self.inst_ebb.contains_key(i) ==> self.insts.contains_key(self.inst_ebb[i])
                && self.insts[self.inst_ebb[i]].contains(i)
    }

    /// The layout with the block `ebb` appended, without instructions.
    pub open spec fn append_ebb(self, ebb: Ebb) -> LayoutView {
        LayoutView {
            ebbs: self.ebbs.push(ebb),
            insts: self.insts.insert(ebb, Seq::empty()),
            inst_ebb: self.inst_ebb,
        }
    }

    /// The layout with `inst` at place `index` among the instructions of
    /// `ebb`.
    pub open spec fn insert_inst_at(self, ebb: Ebb, index: int, inst: Inst) -> LayoutView {
        LayoutView {
            ebbs: self.ebbs,
            insts: self.insts.insert(ebb, self.insts[ebb].insert(index, inst)),
            inst_ebb: self.inst_ebb.insert(inst, ebb),
        }
    }

    /// The layout with `inst` appended to the instructions of `ebb`.
    pub open spec fn append_inst(self, inst: Inst, ebb: Ebb) -> LayoutView {
        self.insert_inst_at(ebb, self.insts[ebb].len() as int, inst)
    }

    /// The layout with `inst` inserted just before the instruction `before`.
    pub open spec fn insert_inst(self, inst: Inst, before: Inst) -> LayoutView {
        self.insert_inst_at(self.inst_ebb[before], self.inst_index(before), inst)
    }

    /// Appending a block that is not in the layout keeps the layout well
    /// formed.
    pub proof fn lemma_append_ebb_wf(self, ebb: Ebb)
        requires
            self.wf(),
            !self.is_ebb_inserted(ebb),
        ensures
            self.append_ebb(ebb).wf(),
    {
        let after = self.append_ebb(ebb);
        assert forall|e: Ebb| #[trigger] after.insts.contains_key(e) <==> after.ebbs.contains(
            e,
        ) by {
            if e == ebb {
                assert(after.ebbs[self.ebbs.len() as int] == ebb);
            } else {
                if self.ebbs.contains(e) {
                    let k = choose|k: int| 0 <= k < self.ebbs.len() && self.ebbs[k] == e;
                    assert(after.ebbs[k] == e);
                }
                assert(self.insts.contains_key(e) <==> self.ebbs.contains(e));
            }
        }
        assert forall|e: Ebb| after.insts.contains_key(e) implies #[trigger] after.ebb_wf(e) by {
            if e != ebb {
                assert(self.ebb_wf(e));
            }
        }
        assert forall|i: Inst| #[trigger]
            after.inst_ebb.contains_key(i) implies after.insts.contains_key(after.inst_ebb[i])
            && after.insts[after.inst_ebb[i]].contains(i) by {
            assert(self.insts.contains_key(self.inst_ebb[i]));
        }
    }

    /// Putting an instruction that is not in the layout into a block of the
    /// layout keeps the layout well formed.
    pub proof fn lemma_insert_inst_at_wf(self, ebb: Ebb, index: int, inst: Inst)
        requires
            self.wf(),
            self.is_ebb_inserted(ebb),
            !self.is_inst_inserted(inst),
            0 <= index <= self.insts[ebb].len(),
        ensures
            self.insert_inst_at(ebb, index, inst).wf(),
    {
        let after = self.insert_inst_at(ebb, index, inst);
        let old_list = self.insts[ebb];
        let new_list = old_list.insert(index, inst);
        assert(self.insts.contains_key(ebb));
        assert(self.ebb_wf(ebb));
        assert forall|e: Ebb| #[trigger] after.insts.contains_key(e) <==> after.ebbs.contains(
            e,
        ) by {
            assert(self.insts.contains_key(e) <==> self.ebbs.contains(e));
        }
        assert forall|e: Ebb| after.insts.contains_key(e) implies #[trigger] after.ebb_wf(e) by {
            assert(self.ebb_wf(e));
            if e == ebb {
                assert forall|a: int, b: int|
                    0 <= a < new_list.len() && 0 <= b < new_list.len() && a != b implies new_list[a]
                    != new_list[b] by {
                    let oa = if a < index {
                        a
                    } else {
                        a - 1
                    };
                    let ob = if b < index {
                        b
                    } else {
                        b - 1
                    };
                    if a != index {
                        assert(new_list[a] == old_list[oa]);
                    }
                    if b != index {
                        assert(new_list[b] == old_list[ob]);
                    }
                }
                assert forall|k: int| 0 <= k < new_list.len() implies ({
                    let i = #[trigger] new_list[k];
                    after.inst_ebb.contains_key(i) && after.inst_ebb[i] == e
                }) by {
                    if k != index {
                        let ok = if k < index {
                            k
                        } else {
                            k - 1
                        };
                        assert(new_list[k] == old_list[ok]);
                    }
                }
            } else {
                assert forall|k: int| 0 <= k < after.insts[e].len() implies ({
                    let i = #[trigger] after.insts[e][k];
                    after.inst_ebb.contains_key(i) && after.inst_ebb[i] == e
                }) by {
                    assert(self.insts[e][k] != inst);
                }
            }
        }
        assert forall|i: Inst| #[trigger]
            after.inst_ebb.contains_key(i) implies after.insts.contains_key(after.inst_ebb[i])
            && after.insts[after.inst_ebb[i]].contains(i) by {
            if i == inst {
                assert(new_list[index] == inst);
            } else {
                let e = self.inst_ebb[i];
                assert(self.insts.contains_key(e));
                if e == ebb {
                    let k = choose|k: int| 0 <= k < old_list.len() && old_list[k] == i;
                    let nk = if k < index {
                        k
                    } else {
                        k + 1
                    };
                    assert(new_list[nk] == i);
                }
            }
        }
    }

    /// In a well-formed layout an instruction stands at its index in the
    /// list of its block, and at no other place.
    pub proof fn lemma_inst_index(self, inst: Inst)
        requires
            self.wf(),
            self.is_inst_inserted(inst),
        ensures
            0 <= self.inst_index(inst) < self.insts[self.inst_ebb[inst]].len(),
            self.insts[self.inst_ebb[inst]][self.inst_index(inst)] == inst,
            forall|k: int|
                0 <= k < self.insts[self.inst_ebb[inst]].len()
                    && #[trigger] self.insts[self.inst_ebb[inst]][k] == inst
                    ==> k == self.inst_index(inst),
    {
        let e = self.inst_ebb[inst];
        assert(self.insts.contains_key(e));
        assert(self.ebb_wf(e));
        assert(self.insts[e].contains(inst));
        self.insts[e].index_of_first_ensures(inst);
        let list = self.insts[e];
        let idx = list.index_of(inst);
        assert(0 <= idx < list.len() && list[idx] == inst);
    }
}

/// The layout of a function.
pub struct Layout {
    order: Vec<Ebb>,
    insts: Vec<Vec<Inst>>,
    inst_ebb: Vec<Option<Ebb>>,
}

impl View for Layout {
    type V = LayoutView;

    /// The order of the blocks, the instructions of each block of the order,
    /// and the block of each instruction.
    closed spec fn view(&self) -> LayoutView {
        LayoutView {
            ebbs: self.order@,
            insts: Map::new(
                |e: Ebb| self.order@.contains(e) && e.0 < self.insts@.len(),
                |e: Ebb| self.insts@[e.0 as int]@,
            ),
            inst_ebb: Map::new(
                |i: Inst| i.0 < self.inst_ebb@.len() && self.inst_ebb@[i.0 as int] is Some,
                |i: Inst| self.inst_ebb@[i.0 as int]->0,
            ),
        }
    }
}

impl Layout {
    /// A layout without blocks.
    pub fn new() -> (layout: Layout)
        ensures
            layout@.wf(),
            layout@.ebbs.len() == 0,
            forall|i: Inst| !layout@.is_inst_inserted(i),
    {
        Layout { order: Vec::new(), insts: Vec::new(), inst_ebb: Vec::new() }
    }

    /// The blocks in layout order.
    pub fn ebbs(&self) -> (order: &Vec<Ebb>)
        ensures
            order@ == self@.ebbs,
    {
        &self.order
    }

    /// The first block of the layout, if it has a block.
    pub fn entry_block(&self) -> (entry: Option<Ebb>)
        ensures
            entry == self@.entry_block(),
    {
        if self.order.len() > 0 {
            Some(self.order[0])
        } else {
            None
        }
    }

    /// Is the block `ebb` in the layout?
    pub fn is_ebb_inserted(&self, ebb: Ebb) -> (b: bool)
        ensures
            b == self@.is_ebb_inserted(ebb),
    {
        let mut k: usize = 0;
        while k < self.order.len()
            invariant
                k <= self.order@.len(),
                forall|j: int| 0 <= j < k ==> self.order@[j] != ebb,
            decreases self.order@.len() - k,
        {
            if self.order[k] == ebb {
                return true;
            }
            k = k + 1;
        }
        false
    }

    /// The block of the instruction `inst`, if it is in the layout.
    pub fn inst_ebb(&self, inst: Inst) -> (ebb: Option<Ebb>)
        ensures
            ebb is Some <==> self@.is_inst_inserted(inst),
            ebb matches Some(e) ==> e == self@.inst_ebb[inst],
    {
        if inst.0 < self.inst_ebb.len() {
            self.inst_ebb[inst.0]
        } else {
            None
        }
    }

    /// The instructions of the block `ebb` of the layout, in order.
    pub fn ebb_insts(&self, ebb: Ebb) -> (insts: &Vec<Inst>)
        requires
            self@.wf(),
            self@.is_ebb_inserted(ebb),
        ensures
            insts@ == self@.insts[ebb],
    {
        proof {
            assert(self@.insts.contains_key(ebb));
        }
        &self.insts[ebb.0]
    }

    /// The first instruction of the block `ebb` of the layout, if it has
    /// one.
    pub fn first_inst(&self, ebb: Ebb) -> (first: Option<Inst>)
        requires
            self@.wf(),
            self@.is_ebb_inserted(ebb),
        ensures
            first == if self@.insts[ebb].len() > 0 {
                Some(self@.insts[ebb][0])
            } else {
                None
            },
    {
        proof {
            assert(self@.insts.contains_key(ebb));
        }
        if self.insts[ebb.0].len() > 0 {
            Some(self.insts[ebb.0][0])
        } else {
            None
        }
    }

    /// The place of the instruction `inst` of the layout among the
    /// instructions of its block.
    fn index_in_ebb(&self, inst: Inst) -> (index: usize)
        requires
            self@.wf(),
            self@.is_inst_inserted(inst),
        ensures
            index == self@.inst_index(inst),
            index < self@.insts[self@.inst_ebb[inst]].len(),
    {
        proof {
            self@.lemma_inst_index(inst);
            assert(self@.insts.contains_key(self@.inst_ebb[inst]));
        }
        let ebb = self.inst_ebb[inst.0].unwrap();
        let list = &self.insts[ebb.0];
        let len = list.len();
        let mut k: usize = 0;
        while list[k] != inst
            invariant
                k < list@.len(),
                len == list@.len(),
                list@ == self@.insts[self@.inst_ebb[inst]],
                0 <= self@.inst_index(inst) < list@.len(),
                list@[self@.inst_index(inst)] == inst,
                forall|j: int| 0 <= j < k ==> list@[j] != inst,
            decreases list@.len() - k,
        {
            k = k + 1;
        }
        k
    }

    /// The instruction after `inst` in its block, if there is one.
    pub fn next_inst(&self, inst: Inst) -> (next: Option<Inst>)
        requires
            self@.wf(),
            self@.is_inst_inserted(inst),
        ensures
            next == if self@.inst_index(inst) + 1 < self@.insts[self@.inst_ebb[inst]].len() {
                Some(self@.insts[self@.inst_ebb[inst]][self@.inst_index(inst) + 1])
            } else {
                None
            },
    {
        proof {
            assert(self@.insts.contains_key(self@.inst_ebb[inst]));
        }
        let ebb = self.inst_ebb[inst.0].unwrap();
        let k = self.index_in_ebb(inst);
        let len = self.insts[ebb.0].len();
        if k + 1 < len {
            Some(self.insts[ebb.0][k + 1])
        } else {
            None
        }
    }

    /// Append the block `ebb`, which is not in the layout, to the layout.
    pub fn append_ebb(&mut self, ebb: Ebb)
        requires
            old(self)@.wf(),
            !old(self)@.is_ebb_inserted(ebb),
        ensures
            final(self)@ == old(self)@.append_ebb(ebb),
            final(self)@.wf(),
            forall|e: Ebb| #[trigger]
                final(self)@.is_ebb_inserted(e) <==> (e == ebb || old(self)@.is_ebb_inserted(e)),
            final(self)@.entry_block() == if old(self)@.ebbs.len() == 0 {
                Some(ebb)
            } else {
                old(self)@.entry_block()
            },
    {
        while self.insts.len() <= ebb.0
            invariant
                self.order == old(self).order,
                self.inst_ebb == old(self).inst_ebb,
                old(self).insts@.len() <= self.insts@.len(),
                forall|e: int|
                    0 <= e < old(self).insts@.len() ==> self.insts@[e] == old(self).insts@[e],
            decreases ebb.0 + 1 - self.insts@.len(),
        {
            self.insts.push(Vec::new());
        }
        self.insts[ebb.0] = Vec::new();
        self.order.push(ebb);
        proof {
            let after = old(self)@.append_ebb(ebb);
            assert forall|e: Ebb| #[trigger] self@.insts.contains_key(e) <==> after.insts.contains_key(
                e,
            ) by {
                if e == ebb {
                    assert(self.order@[old(self).order@.len() as int] == ebb);
                } else {
                    if old(self).order@.contains(e) {
                        let k = choose|k: int|
                            0 <= k < old(self).order@.len() && old(self).order@[k] == e;
                        assert(self.order@[k] == e);
                        assert(old(self)@.ebbs.contains(e));
                        assert(old(self)@.insts.contains_key(e));
                    }
                }
            }
            assert(self@.insts =~~= after.insts);
            assert(self@ =~~= after);
            old(self)@.lemma_append_ebb_wf(ebb);
            assert forall|e: Ebb| #[trigger]
                after.is_ebb_inserted(e) <==> (e == ebb || old(self)@.is_ebb_inserted(e)) by {
                assert(after.insts.contains_key(e) <==> after.ebbs.contains(e));
                assert(old(self)@.insts.contains_key(e) <==> old(self)@.ebbs.contains(e));
            }
        }
    }

    /// Make room in the table of blocks by instruction for `inst`.
    fn reserve_inst(&mut self, inst: Inst)
        ensures
            final(self)@ == old(self)@,
            final(self).order == old(self).order,
            final(self).insts == old(self).insts,
            inst.0 < final(self).inst_ebb@.len(),
            old(self).inst_ebb@.len() <= final(self).inst_ebb@.len(),
            forall|i: int|
                0 <= i < old(self).inst_ebb@.len() ==> final(self).inst_ebb@[i]
                    == old(self).inst_ebb@[i],
            forall|i: int|
                old(self).inst_ebb@.len() <= i < final(self).inst_ebb@.len()
                    ==> final(self).inst_ebb@[i] is None,
    {
        while self.inst_ebb.len() <= inst.0
            invariant
                self.order == old(self).order,
                self.insts == old(self).insts,
                old(self).inst_ebb@.len() <= self.inst_ebb@.len(),
                forall|i: int|
                    0 <= i < old(self).inst_ebb@.len() ==> self.inst_ebb@[i]
                        == old(self).inst_ebb@[i],
                forall|i: int|
                    old(self).inst_ebb@.len() <= i < self.inst_ebb@.len() ==> self.inst_ebb@[i]
                        is None,
            decreases inst.0 + 1 - self.inst_ebb@.len(),
        {
            self.inst_ebb.push(None);
        }
        proof {
            assert(self@.inst_ebb =~~= old(self)@.inst_ebb);
            assert(self@ =~~= old(self)@);
        }
    }

    /// Put `inst` at place `index` among the instructions of `ebb`.
    fn insert_inst_at(&mut self, ebb: Ebb, index: usize, inst: Inst)
        requires
            old(self)@.wf(),
            old(self)@.is_ebb_inserted(ebb),
            !old(self)@.is_inst_inserted(inst),
            index <= old(self)@.insts[ebb].len(),
        ensures
            final(self)@ == old(self)@.insert_inst_at(ebb, index as int, inst),
            final(self)@.wf(),
            old(self)@.extended_by(final(self)@),
            forall|i: Inst| #[trigger]
                final(self)@.is_inst_inserted(i) <==> (i == inst || old(self)@.is_inst_inserted(
                    i,
                )),
    {
        proof {
            assert(self@.insts.contains_key(ebb));
        }
        self.reserve_inst(inst);
        self.inst_ebb[inst.0] = Some(ebb);
        self.insts[ebb.0].insert(index, inst);
        proof {
            let after = old(self)@.insert_inst_at(ebb, index as int, inst);
            assert(self@.insts =~~= after.insts);
            assert(self@.inst_ebb =~~= after.inst_ebb);
            assert(self@ =~~= after);
            old(self)@.lemma_insert_inst_at_wf(ebb, index as int, inst);
            old(self)@.lemma_insert_extends(ebb, index as int, inst);
        }
    }

    /// Append `inst`, which is not in the layout, to the block `ebb` of the
    /// layout.
    pub fn append_inst(&mut self, inst: Inst, ebb: Ebb)
        requires
            old(self)@.wf(),
            old(self)@.is_ebb_inserted(ebb),
            !old(self)@.is_inst_inserted(inst),
        ensures
            final(self)@ == old(self)@.append_inst(inst, ebb),
            final(self)@.wf(),
            old(self)@.extended_by(final(self)@),
            forall|i: Inst| #[trigger]
                final(self)@.is_inst_inserted(i) <==> (i == inst || old(self)@.is_inst_inserted(
                    i,
                )),
    {
        proof {
            assert(self@.insts.contains_key(ebb));
        }
        let index = self.insts[ebb.0].len();
        self.insert_inst_at(ebb, index, inst);
    }

    /// Insert `inst`, which is not in the layout, just before the
    /// instruction `before` of the layout.
    pub fn insert_inst(&mut self, inst: Inst, before: Inst)
        requires
            old(self)@.wf(),
            old(self)@.is_inst_inserted(before),
            !old(self)@.is_inst_inserted(inst),
        ensures
            final(self)@ == old(self)@.insert_inst(inst, before),
            final(self)@.wf(),
            old(self)@.extended_by(final(self)@),
            forall|i: Inst| #[trigger]
                final(self)@.is_inst_inserted(i) <==> (i == inst || old(self)@.is_inst_inserted(
                    i,
                )),
    {
        proof {
            assert(self@.insts.contains_key(self@.inst_ebb[before]));
        }
        let ebb = self.inst_ebb[before.0].unwrap();
        let index = self.index_in_ebb(before);
        self.insert_inst_at(ebb, index, inst);
    }
}

/// A position of a cursor in a layout.
#[derive(Clone, Copy, Debug, PartialEq, Eq, Structural)]
pub enum CursorPosition {
    /// The cursor is nowhere in the layout.
    Nowhere,
    /// The cursor is at an instruction: a new instruction goes just before
    /// it.
    At(Inst),
    /// The cursor is before the first instruction of a block.
    Before(Ebb),
    /// The cursor is after the last instruction of a block: a new
    /// instruction is appended to the block.
    After(Ebb),
}

/// A cursor as a mathematical value: the layout it walks and its position.
#[verifier::ext_equal]
pub struct CursorView {
    pub layout: LayoutView,
    pub pos: CursorPosition,
}

impl LayoutView {
    /// Is `pos` a position in this layout?
    pub open spec fn has_position(self, pos: CursorPosition) -> bool {
        match pos {
            CursorPosition::Nowhere => true,
            CursorPosition::At(inst) => self.is_inst_inserted(inst),
            CursorPosition::Before(ebb) => self.is_ebb_inserted(ebb),
            CursorPosition::After(ebb) => self.is_ebb_inserted(ebb),
        }
    }

    /// The position that follows `pos` when the cursor steps to the next
    /// instruction: the first instruction of the block from before it, the
    /// following instruction from an instruction, and after the block where
    /// there is no such instruction.
    pub open spec fn position_after(self, pos: CursorPosition) -> CursorPosition {
        match pos {
            CursorPosition::Nowhere => CursorPosition::Nowhere,
            CursorPosition::At(inst) => {
                let ebb = self.inst_ebb[inst];
                let next = self.inst_index(inst) + 1;
                if next < self.insts[ebb].len() {
                    CursorPosition::At(self.insts[ebb][next])
                } else {
                    CursorPosition::After(ebb)
                }
            },
            CursorPosition::Before(ebb) => {
                if self.insts[ebb].len() > 0 {
                    CursorPosition::At(self.insts[ebb][0])
                } else {
                    CursorPosition::After(ebb)
                }
            },
            CursorPosition::After(ebb) => CursorPosition::After(ebb),
        }
    }

    /// Can an instruction be inserted at `pos`?
    pub open spec fn can_insert_at(self, pos: CursorPosition) -> bool {
        match pos {
            CursorPosition::At(inst) => self.is_inst_inserted(inst),
            CursorPosition::After(ebb) => self.is_ebb_inserted(ebb),
            _ => false,
        }
    }

    /// The layout with `inst` inserted at `pos`: just before the instruction
    /// of the position, or at the end of the block of the position.
    pub open spec fn insert_at_position(self, pos: CursorPosition, inst: Inst) -> LayoutView {
        match pos {
            CursorPosition::At(before) => self.insert_inst(inst, before),
            CursorPosition::After(ebb) => self.append_inst(inst, ebb),
            _ => self,
        }
    }

    /// The position that `position_after` gives is a position of the layout
    /// and, from a position at or before an instruction or a block, one
    /// where an instruction can be inserted.
    pub proof fn lemma_position_after(self, pos: CursorPosition)
        requires
            self.wf(),
            self.has_position(pos),
        ensures
            self.has_position(self.position_after(pos)),
            pos != CursorPosition::Nowhere ==> self.can_insert_at(self.position_after(pos)),
    {
        match pos {
            CursorPosition::At(inst) => {
                let ebb = self.inst_ebb[inst];
                assert(self.insts.contains_key(ebb));
                assert(self.ebb_wf(ebb));
            },
            CursorPosition::Before(ebb) => {
                assert(self.insts.contains_key(ebb));
                assert(self.ebb_wf(ebb));
            },
            _ => {},
        }
    }

    /// The layout `later` has the blocks of this layout in the same order
    /// and its instructions in the same blocks and in the same order, with
    /// other instructions in between.
    pub open spec fn extended_by(self, later: LayoutView) -> bool {
        &&& later.ebbs == self.ebbs
        &&& forall|i: Inst| #[trigger]
            self.is_inst_inserted(i) ==> later.is_inst_inserted(i) && later.inst_ebb[i]
                == self.inst_ebb[i]
        &&& forall|i: Inst, j: Inst|
            #![trigger self.inst_index(i), self.inst_index(j)]
            self.is_inst_inserted(i) && self.is_inst_inserted(j) && self.inst_ebb[i]
                == self.inst_ebb[j] && self.inst_index(i) < self.inst_index(j)
                ==> later.inst_index(i) < later.inst_index(j)
    }

    /// The instruction `first` stands before the instruction `second`, in the
    /// block of both.
    pub open spec fn stands_before(self, first: Inst, second: Inst) -> bool {
        &&& self.is_inst_inserted(first)
        &&& self.is_inst_inserted(second)
        &&& self.inst_ebb[first] == self.inst_ebb[second]
        &&& self.inst_index(first) < self.inst_index(second)
    }

    /// In the layout `later`, the instruction `inst` stands in front of the
    /// instruction `next`: before it in its block, and after every
    /// instruction of this layout that stands before `next`.
    pub open spec fn stands_in_front(self, later: LayoutView, inst: Inst, next: Inst) -> bool {
        &&& later.stands_before(inst, next)
        &&& forall|j: Inst| #[trigger]
            self.is_inst_inserted(j) && later.stands_before(j, next) ==> later.stands_before(
                j,
                inst,
            )
    }

    /// The instruction `inst` stands in the block `ebb` of the layout
    /// `later`, before every instruction that `ebb` has in this layout.
    pub open spec fn stands_at_top(self, later: LayoutView, inst: Inst, ebb: Ebb) -> bool {
        &&& later.is_inst_inserted(inst)
        &&& later.inst_ebb[inst] == ebb
        &&& forall|j: Inst| #[trigger]
            self.is_inst_inserted(j) && self.inst_ebb[j] == ebb ==> later.inst_index(inst)
                < later.inst_index(j)
    }

    /// The layout with a new instruction in it extends the layout.
    pub proof fn lemma_insert_extends(self, ebb: Ebb, index: int, inst: Inst)
        requires
            self.wf(),
            self.is_ebb_inserted(ebb),
            !self.is_inst_inserted(inst),
            0 <= index <= self.insts[ebb].len(),
        ensures
            self.extended_by(self.insert_inst_at(ebb, index, inst)),
            self.insert_inst_at(ebb, index, inst).inst_ebb[inst] == ebb,
            self.insert_inst_at(ebb, index, inst).inst_index(inst) == index,
            forall|i: Inst| #[trigger]
                self.is_inst_inserted(i) ==> self.insert_inst_at(ebb, index, inst).inst_index(i)
                    == if self.inst_ebb[i] == ebb && self.inst_index(i) >= index {
                    self.inst_index(i) + 1
                } else {
                    self.inst_index(i)
                },
    {
        let after = self.insert_inst_at(ebb, index, inst);
        self.lemma_insert_inst_at_wf(ebb, index, inst);
        assert(self.insts.contains_key(ebb));
        assert(after.inst_index(inst) == index) by {
            after.lemma_inst_index(inst);
            assert(after.insts[ebb][index] == inst);
        }
        assert forall|i: Inst| #[trigger] self.is_inst_inserted(i) implies after.inst_index(i)
            == if self.inst_ebb[i] == ebb && self.inst_index(i) >= index {
            self.inst_index(i) + 1
        } else {
            self.inst_index(i)
        } by {
            self.lemma_inst_index(i);
            after.lemma_inst_index(i);
            let k = self.inst_index(i);
            if self.inst_ebb[i] == ebb {
                let moved = if k >= index {
                    k + 1
                } else {
                    k
                };
                assert(after.insts[ebb][moved] == i);
            } else {
                assert(after.insts[self.inst_ebb[i]] == self.insts[self.inst_ebb[i]]);
            }
        }
        assert forall|i: Inst, j: Inst|
            #![trigger self.inst_index(i), self.inst_index(j)]
            self.is_inst_inserted(i) && self.is_inst_inserted(j) && self.inst_ebb[i]
                == self.inst_ebb[j] && self.inst_index(i) < self.inst_index(
                j,
            ) implies after.inst_index(i) < after.inst_index(j) by {
            assert(self.is_inst_inserted(i));
            assert(self.is_inst_inserted(j));
        }
    }

    /// Inserting a new instruction at a position adds it to the
    /// instructions of the layout, which the new layout extends.
    pub proof fn lemma_insert_at_position(self, at: CursorPosition, inst: Inst)
        requires
            self.wf(),
            self.can_insert_at(at),
            !self.is_inst_inserted(inst),
        ensures
            self.extended_by(self.insert_at_position(at, inst)),
            forall|i: Inst| #[trigger]
                self.insert_at_position(at, inst).is_inst_inserted(i) <==> (i == inst
                    || self.is_inst_inserted(i)),
    {
        match at {
            CursorPosition::At(before) => {
                self.lemma_inst_index(before);
                self.lemma_insert_extends(self.inst_ebb[before], self.inst_index(before), inst);
            },
            CursorPosition::After(ebb) => {
                assert(self.insts.contains_key(ebb));
                self.lemma_insert_extends(ebb, self.insts[ebb].len() as int, inst);
            },
            _ => {},
        }
    }
}

impl LayoutView {
    /// A new instruction that is inserted at an instruction stands in front
    /// of it.
    pub proof fn lemma_inserted_in_front(self, origin: LayoutView, before: Inst, inst: Inst)
        requires
            self.wf(),
            origin.extended_by(self),
            self.is_inst_inserted(before),
            !self.is_inst_inserted(inst),
        ensures
            origin.stands_in_front(
                self.insert_at_position(CursorPosition::At(before), inst),
                inst,
                before,
            ),
    {
        let after = self.insert_at_position(CursorPosition::At(before), inst);
        self.lemma_inst_index(before);
        self.lemma_insert_extends(self.inst_ebb[before], self.inst_index(before), inst);
        self.lemma_insert_at_position(CursorPosition::At(before), inst);
        assert forall|j: Inst| #[trigger]
            origin.is_inst_inserted(j) && after.stands_before(j, before) implies after.stands_before(
            j,
            inst,
        ) by {
            assert(self.is_inst_inserted(j));
        }
    }

    /// A new instruction that is inserted at the top of a block stands
    /// before every instruction that the block had.
    pub proof fn lemma_inserted_at_top(self, ebb: Ebb, inst: Inst)
        requires
            self.wf(),
            self.is_ebb_inserted(ebb),
            !self.is_inst_inserted(inst),
        ensures
            self.stands_at_top(
                self.insert_at_position(
                    self.position_after(CursorPosition::Before(ebb)),
                    inst,
                ),
                inst,
                ebb,
            ),
    {
        let top = self.position_after(CursorPosition::Before(ebb));
        assert(self.insts.contains_key(ebb));
        assert(self.ebb_wf(ebb));
        self.lemma_position_after(CursorPosition::Before(ebb));
        self.lemma_insert_at_position(top, inst);
        if self.insts[ebb].len() > 0 {
            let first = self.insts[ebb][0];
            self.lemma_inst_index(first);
            self.lemma_insert_extends(ebb, 0, inst);
        } else {
            self.lemma_insert_extends(ebb, 0, inst);
        }
        let after = self.insert_at_position(top, inst);
        assert forall|j: Inst| #[trigger]
            self.is_inst_inserted(j) && self.inst_ebb[j] == ebb implies after.inst_index(inst)
            < after.inst_index(j) by {
            self.lemma_inst_index(j);
        }
    }

    /// What stands in front of an instruction, or at the top of a block,
    /// does so in every layout that extends the layout.
    pub proof fn lemma_stands_extended(self, origin: LayoutView, later: LayoutView)
        requires
            self.wf(),
            origin.extended_by(self),
            self.extended_by(later),
        ensures
            forall|inst: Inst, next: Inst| #[trigger]
                origin.stands_in_front(self, inst, next) ==> origin.stands_in_front(
                    later,
                    inst,
                    next,
                ),
            forall|inst: Inst, ebb: Ebb| #[trigger]
                origin.stands_at_top(self, inst, ebb) ==> origin.stands_at_top(later, inst, ebb),
    {
        assert forall|inst: Inst, next: Inst| #[trigger]
            origin.stands_in_front(self, inst, next) implies origin.stands_in_front(
            later,
            inst,
            next,
        ) by {
            assert(self.is_inst_inserted(inst) && self.is_inst_inserted(next));
            assert(self.inst_index(inst) < self.inst_index(next));
            assert forall|j: Inst| #[trigger]
                origin.is_inst_inserted(j) && later.stands_before(
                    j,
                    next,
                ) implies later.stands_before(j, inst) by {
                assert(self.is_inst_inserted(j));
                self.lemma_inst_index(j);
                self.lemma_inst_index(next);
                // The two stood in the same order before: had `next` stood first, it
                // would stand first now.
                if self.inst_index(next) < self.inst_index(j) {
                    assert(later.inst_index(next) < later.inst_index(j));
                }
                assert(self.stands_before(j, next));
                assert(self.stands_before(j, inst));
                assert(self.inst_index(j) < self.inst_index(inst));
            }
        }
        assert forall|inst: Inst, ebb: Ebb| #[trigger]
            origin.stands_at_top(self, inst, ebb) implies origin.stands_at_top(
            later,
            inst,
            ebb,
        ) by {
            assert(self.is_inst_inserted(inst));
            assert forall|j: Inst| #[trigger]
                origin.is_inst_inserted(j) && origin.inst_ebb[j] == ebb implies later.inst_index(
                inst,
            ) < later.inst_index(j) by {
                assert(self.is_inst_inserted(j));
                assert(self.inst_index(inst) < self.inst_index(j));
            }
        }
    }
}

/// A cursor walks a layout and inserts instructions at its position.
pub struct Cursor {
    layout: Layout,
    pos: CursorPosition,
}

impl View for Cursor {
    type V = CursorView;

    /// The layout of the cursor and its position.
    closed spec fn view(&self) -> CursorView {
        CursorView { layout: self.layout@, pos: self.pos }
    }
}

impl CursorView {
    /// The layout is well formed and the cursor is at a position in it.
    pub open spec fn wf(self) -> bool {
        self.layout.wf() && self.layout.has_position(self.pos)
    }
}

impl Cursor {
    /// A cursor for `layout`, nowhere yet.
    pub fn new(layout: Layout) -> (cursor: Cursor)
        requires
            layout@.wf(),
        ensures
            cursor@ == (CursorView { layout: layout@, pos: CursorPosition::Nowhere }),
            cursor@.wf(),
    {
        Cursor { layout, pos: CursorPosition::Nowhere }
    }

    /// Give up the cursor for its layout.
    pub fn into_layout(self) -> (layout: Layout)
        ensures
            layout@ == self@.layout,
    {
        self.layout
    }

    /// The layout of the cursor.
    pub fn layout(&self) -> (layout: &Layout)
        ensures
            layout@ == self@.layout,
    {
        &self.layout
    }

    /// The position of the cursor.
    pub fn position(&self) -> (pos: CursorPosition)
        ensures
            pos == self@.pos,
    {
        self.pos
    }

    /// Move the cursor to `pos`, a position in its layout.
    pub fn set_position(&mut self, pos: CursorPosition)
        requires
            old(self)@.layout.has_position(pos),
        ensures
            final(self)@ == (CursorView { layout: old(self)@.layout, pos: pos }),
    {
        self.pos = pos;
    }

    /// Move the cursor to the instruction `inst` of the layout.
    pub fn goto_inst(&mut self, inst: Inst)
        requires
            old(self)@.layout.is_inst_inserted(inst),
        ensures
            final(self)@ == (CursorView {
                layout: old(self)@.layout,
                pos: CursorPosition::At(inst),
            }),
    {
        self.pos = CursorPosition::At(inst);
    }

    /// Move the cursor to the top of the block `ebb` of the layout, before
    /// its first instruction.
    pub fn goto_top(&mut self, ebb: Ebb)
        requires
            old(self)@.layout.is_ebb_inserted(ebb),
        ensures
            final(self)@ == (CursorView {
                layout: old(self)@.layout,
                pos: CursorPosition::Before(ebb),
            }),
    {
        self.pos = CursorPosition::Before(ebb);
    }

    /// Step to the next instruction of the block and return it. Where there
    /// is none, the cursor goes after the block.
    pub fn next_inst(&mut self) -> (next: Option<Inst>)
        requires
            old(self)@.wf(),
        ensures
            final(self)@ == (CursorView {
                layout: old(self)@.layout,
                pos: old(self)@.layout.position_after(old(self)@.pos),
            }),
            final(self)@.wf(),
            next == match final(self)@.pos {
                CursorPosition::At(inst) => Some(inst),
                _ => None,
            },
    {
        proof {
            self@.layout.lemma_position_after(self@.pos);
        }
        match self.pos {
            CursorPosition::Nowhere => None,
            CursorPosition::At(inst) => {
                let ebb = self.layout.inst_ebb(inst).unwrap();
                match self.layout.next_inst(inst) {
                    Some(next) => {
                        self.pos = CursorPosition::At(next);
                        Some(next)
                    },
                    None => {
                        self.pos = CursorPosition::After(ebb);
                        None
                    },
                }
            },
            CursorPosition::Before(ebb) => {
                match self.layout.first_inst(ebb) {
                    Some(first) => {
                        self.pos = CursorPosition::At(first);
                        Some(first)
                    },
                    None => {
                        self.pos = CursorPosition::After(ebb);
                        None
                    },
                }
            },
            CursorPosition::After(_) => None,
        }
    }

    /// Insert `inst`, which is not in the layout, at the cursor: just before
    /// the instruction that the cursor is at, or at the end of the block
    /// that the cursor is after. The cursor stays where it is.
    pub fn insert_inst(&mut self, inst: Inst)
        requires
            old(self)@.wf(),
            old(self)@.layout.can_insert_at(old(self)@.pos),
            !old(self)@.layout.is_inst_inserted(inst),
        ensures
            final(self)@ == (CursorView {
                layout: old(self)@.layout.insert_at_position(old(self)@.pos, inst),
                pos: old(self)@.pos,
            }),
            final(self)@.wf(),
            old(self)@.layout.extended_by(final(self)@.layout),
            forall|i: Inst| #[trigger]
                final(self)@.layout.is_inst_inserted(i) <==> (i == inst
                    || old(self)@.layout.is_inst_inserted(i)),
    {
        match self.pos {
            CursorPosition::At(before) => {
                self.layout.insert_inst(inst, before);
            },
            CursorPosition::After(ebb) => {
                self.layout.append_inst(inst, ebb);
            },
            _ => {},
        }
    }
}

} // verus!
