//! Value splitting.
//!
//! Some value types are too large to fit in registers, so values of these
//! types are split into two halves that the target can operate on. There are
//! two ways of splitting, each with a pair of complementary instructions:
//!
//! - `isplit` and `iconcat` split an integer into two integers of half the
//!   width, and put them together again.
//! - `vsplit` and `vconcat` split a vector into two vectors with half the
//!   lanes, and put them together again.
//!
//! A value is split with as little new code as possible. A value that a
//! concatenation defines is split into the operands of the concatenation. A
//! parameter of a block other than the entry block is split into two
//! parameters: the block gets a parameter for the low half in place of the
//! old one and a new last parameter for the high half, and the old value
//! becomes an alias of their concatenation at the top of the block. Every
//! branch to the block must then pass the two halves, so the argument of each
//! predecessor is split in turn, which may split the parameters of further
//! blocks. This is not done by recursion: the repairs that are due are kept
//! on a stack and worked off one by one. Any other value is split by a split
//! instruction at the cursor.

use crate::flowgraph::ControlFlowGraph;
use crate::ir::dfg::{DataFlowGraph, DfgView, ValueData, ValueDef};
use crate::ir::entities::{Ebb, Inst, Value};
use crate::ir::instructions::{InstView, InstructionData, Opcode};
use crate::ir::layout::{Cursor, CursorPosition, CursorView, LayoutView};
use crate::ir::types::Type;
use crate::legalizer::consistency::{
    args_consistent, consistent_function, count_params, fixed_args, function_wf, grows,
    is_pred, lemma_grows_reflexive, lemma_grows_transitive, lemma_is_split,
    lemma_is_split_grown, lemma_reuse_grown, lemma_set_args_grows, lemma_split_param_settled,
    split_from,
};
use crate::legalizer::mending::{
    lemma_mending_done, lemma_mending_finished, lemma_mending_put_back, lemma_mending_split,
    lemma_mending_start, lemma_mending_take, lemma_mending_written, mending,
};
use crate::legalizer::repairing::{
    args_repairing, is_repaired, lemma_push_to_set, repair_of, repair_ok, repaired_args,
    slot_ok, split_pending,
};
use crate::legalizer::tracking::{
    branches_follow, lemma_parameter_growth, param_split, tracked_param, tracked_params,
};
use vstd::prelude::*;

verus! {

/// The two ways of splitting a value.
#[derive(Clone, Copy, Debug, PartialEq, Eq, Structural)]
pub enum ConcatKind {
    /// Integers are split by `isplit` and put together by `iconcat`.
    Integer,
    /// Vectors are split by `vsplit` and put together by `vconcat`.
    Vector,
}

impl ConcatKind {
    /// The opcode that puts two halves together.
    pub open spec fn spec_concat_opcode(self) -> Opcode {
        match self {
            ConcatKind::Integer => Opcode::Iconcat,
            ConcatKind::Vector => Opcode::Vconcat,
        }
    }

    /// The opcode that splits a value.
    pub open spec fn spec_split_opcode(self) -> Opcode {
        match self {
            ConcatKind::Integer => Opcode::Isplit,
            ConcatKind::Vector => Opcode::Vsplit,
        }
    }

    /// The type of the halves of a value of type `ty`, if it can be split.
    pub open spec fn spec_half_type(self, ty: Type) -> Option<Type> {
        match self {
            ConcatKind::Integer => ty.spec_half_width(),
            ConcatKind::Vector => ty.spec_half_vector(),
        }
    }

    /// The opcode that puts two halves together.
    #[verifier::when_used_as_spec(spec_concat_opcode)]
    pub fn concat_opcode(self) -> (op: Opcode)
        ensures
            op == self.spec_concat_opcode(),
    {
        match self {
            ConcatKind::Integer => Opcode::Iconcat,
            ConcatKind::Vector => Opcode::Vconcat,
        }
    }

    /// The opcode that splits a value.
    #[verifier::when_used_as_spec(spec_split_opcode)]
    pub fn split_opcode(self) -> (op: Opcode)
        ensures
            op == self.spec_split_opcode(),
    {
        match self {
            ConcatKind::Integer => Opcode::Isplit,
            ConcatKind::Vector => Opcode::Vsplit,
        }
    }

    /// The type of the halves of a value of type `ty`, if it can be split.
    #[verifier::when_used_as_spec(spec_half_type)]
    pub fn half_type(self, ty: Type) -> (half: Option<Type>)
        ensures
            half == self.spec_half_type(ty),
    {
        match self {
            ConcatKind::Integer => ty.half_width(),
            ConcatKind::Vector => ty.half_vector(),
        }
    }
}

/// A repair that is due after a block parameter was split: every branch to
/// `ebb` still passes the whole value at `num` and must pass its low half
/// there and its high half at `hi_num`.
#[derive(Clone, Copy, Debug, PartialEq, Eq, Structural)]
pub struct Repair {
    /// The way in which the parameter was split.
    pub concat: ConcatKind,
    /// The type of the two halves.
    pub split_type: Type,
    /// The block whose parameter was split.
    pub ebb: Ebb,
    /// The number of the parameter that was replaced by the low half.
    pub num: usize,
    /// The number of the new parameter for the high half.
    pub hi_num: usize,
}

/// How a value is split.
pub enum SplitCase {
    /// The value is the concatenation of these two values, which are used
    /// again.
    Reuse(Value, Value),
    /// The value is the parameter with this number of this block, which is
    /// not the entry block: the parameter is split.
    Param(Ebb, usize),
    /// The value is split by a new split instruction.
    Generic,
}

/// How `value` is split in the way `kind`.
pub open spec fn split_case(
    dfg: DfgView,
    layout: LayoutView,
    value: Value,
    kind: ConcatKind,
) -> SplitCase {
    match dfg.value(dfg.resolve(value)) {
        ValueData::Inst { inst, .. } => {
            if dfg.inst(inst).opcode == kind.spec_concat_opcode() {
                SplitCase::Reuse(dfg.inst(inst).args[0], dfg.inst(inst).args[1])
            } else {
                SplitCase::Generic
            }
        },
        ValueData::Param { ebb, num, .. } => {
            if layout.entry_block() != Some(ebb) {
                SplitCase::Param(ebb, num)
            } else {
                SplitCase::Generic
            }
        },
        _ => SplitCase::Generic,
    }
}

/// The halves of `value` when it is split: the operands of the concatenation
/// that defines it, or else the two values that are created next.
pub open spec fn split_halves(
    dfg: DfgView,
    layout: LayoutView,
    value: Value,
    kind: ConcatKind,
) -> (Value, Value) {
    match split_case(dfg, layout, value, kind) {
        SplitCase::Reuse(lo, hi) => (lo, hi),
        _ => (dfg.next_value(), Value((dfg.values.len() + 1) as usize)),
    }
}

/// The graph after the parameter `param` of type `ty` was split in the way
/// `kind`: a new parameter of the half type has taken its place, another was
/// appended to the block, and `param` is an alias of the result of a new
/// concatenation of the two.
pub open spec fn split_param(dfg: DfgView, param: Value, kind: ConcatKind) -> DfgView {
    let ty = dfg.value_type(param);
    let half = kind.spec_half_type(ty)->0;
    let ebb = dfg.value(param)->ebb;
    let replaced = dfg.replace_ebb_param(param, half);
    let appended = replaced.append_ebb_param(ebb, half);
    let lo = dfg.next_value();
    let hi = replaced.next_value();
    let concat = InstView::binary(kind.spec_concat_opcode(), lo, hi);
    appended.make_inst(concat, ty).change_to_alias(param, appended.next_value())
}

/// The graph after `value` was split in the way `kind`.
pub open spec fn split_graph(
    dfg: DfgView,
    layout: LayoutView,
    value: Value,
    kind: ConcatKind,
) -> DfgView {
    let v = dfg.resolve(value);
    match split_case(dfg, layout, value, kind) {
        SplitCase::Reuse(_, _) => dfg,
        SplitCase::Param(_, _) => split_param(dfg, v, kind),
        SplitCase::Generic => dfg.make_inst(
            InstView::unary(kind.spec_split_opcode(), v),
            kind.spec_half_type(dfg.value_type(v))->0,
        ),
    }
}

/// The cursor after `value` was split in the way `kind`. A concatenation for
/// a split parameter stands at the top of the block of the parameter, where
/// the cursor is left; a split instruction stands at the cursor.
pub open spec fn split_cursor(
    dfg: DfgView,
    cursor: CursorView,
    value: Value,
    kind: ConcatKind,
) -> CursorView {
    match split_case(dfg, cursor.layout, value, kind) {
        SplitCase::Reuse(_, _) => cursor,
        SplitCase::Param(ebb, _) => {
            let top = cursor.layout.position_after(CursorPosition::Before(ebb));
            CursorView {
                layout: cursor.layout.insert_at_position(top, dfg.next_inst()),
                pos: top,
            }
        },
        SplitCase::Generic => CursorView {
            layout: cursor.layout.insert_at_position(cursor.pos, dfg.next_inst()),
            pos: cursor.pos,
        },
    }
}

/// The repairs that are due after `value` was split in the way `kind`: one
/// more where a parameter was split.
pub open spec fn split_repairs(
    dfg: DfgView,
    layout: LayoutView,
    value: Value,
    kind: ConcatKind,
    repairs: Seq<Repair>,
) -> Seq<Repair> {
    let v = dfg.resolve(value);
    match split_case(dfg, layout, value, kind) {
        SplitCase::Param(ebb, num) => repairs.push(
            Repair {
                concat: kind,
                split_type: kind.spec_half_type(dfg.value_type(v))->0,
                ebb: ebb,
                num: num,
                hi_num: dfg.ebb_params(ebb).len() as usize,
            },
        ),
        _ => repairs,
    }
}

/// Can `value` be split in the way `kind` with the cursor where it is? A
/// value that a concatenation defines always can. Any other value has a type
/// that can be halved, and a split instruction needs a cursor at a position
/// where an instruction can be inserted.
pub open spec fn can_split(
    dfg: DfgView,
    cursor: CursorView,
    value: Value,
    kind: ConcatKind,
) -> bool {
    &&& dfg.is_value(value)
    &&& match split_case(dfg, cursor.layout, value, kind) {
        SplitCase::Reuse(_, _) => true,
        SplitCase::Param(_, _) => kind.spec_half_type(dfg.value_type(value)) is Some,
        SplitCase::Generic => kind.spec_half_type(dfg.value_type(value)) is Some
            && cursor.layout.can_insert_at(cursor.pos),
    }
}

/// The halves put together are the value: `value` stands for the result of
/// the concatenation of `halves`, or `halves` are the results of a split of
/// a value that stands for the same value as `value`.
pub open spec fn is_split(
    dfg: DfgView,
    value: Value,
    kind: ConcatKind,
    halves: (Value, Value),
) -> bool {
    let v = dfg.resolve(value);
    ||| dfg.value(v) is Inst && dfg.inst(dfg.value(v)->inst) == InstView::binary(
        kind.spec_concat_opcode(),
        halves.0,
        halves.1,
    )
    ||| exists|inst: Inst|
        #[trigger] dfg.is_inst(inst) && dfg.inst(inst).opcode == kind.spec_split_opcode()
            && dfg.resolve(dfg.inst(inst).args[0]) == v && dfg.inst_results(inst) == seq![
            halves.0,
            halves.1,
        ]
}

/// What holds after `value` was split in the way `kind` and the repairs were
/// done, of the graph `after` and the cursor `moved` that have come out of
/// `before` and `cursor`, and of the two halves.
///
/// - The halves are those that `split_halves` names, and put together they
///   are the value.
/// - Unless a block parameter was split, the graph and the layout are
///   exactly those that `split_graph` and `split_cursor` name.
/// - Unless a split instruction was needed, a concatenation of the halves
///   now defines the value: a second split finds the halves again.
/// - The cursor is where it was.
/// - The function is consistent again, and has come out of the function it
///   was as `split_from` says: nothing was added but concatenations and
///   splits, which stand where their results can be used.
/// - Every branch passes for each parameter of its destination what it
///   passed before, or the halves of what it passed before where the
///   parameter was split, as `branches_follow` says.
pub open spec fn split_done(
    before: DfgView,
    cursor: CursorView,
    cfg: Seq<Seq<(Ebb, Inst)>>,
    value: Value,
    kind: ConcatKind,
    after: DfgView,
    moved: CursorView,
    halves: (Value, Value),
) -> bool {
    let case = split_case(before, cursor.layout, value, kind);
    &&& halves == split_halves(before, cursor.layout, value, kind)
    &&& is_split(after, value, kind, halves)
    &&& !(case is Param) ==> {
        &&& after == split_graph(before, cursor.layout, value, kind)
        &&& moved == split_cursor(before, cursor, value, kind)
    }
    &&& !(case is Generic) ==> split_case(after, moved.layout, value, kind) == SplitCase::Reuse(
        halves.0,
        halves.1,
    )
    &&& moved.wf()
    &&& moved.pos == cursor.pos
    &&& consistent_function(after, moved.layout, cfg)
    &&& split_from(before, cursor.layout, after, moved.layout, cfg, kind)
    &&& branches_follow(before, after, cfg, kind, before.value_type(value))
}

/// Split `value` into two values using the `isplit` semantics. Do this by
/// reusing existing values if possible.
///
/// The function must be consistent: every branch that `cfg` records passes
/// to its destination one argument for each parameter, of the type of the
/// parameter. It is so again afterwards, and the cursor is where it was.
pub fn isplit(
    dfg: &mut DataFlowGraph,
    cfg: &ControlFlowGraph,
    pos: &mut Cursor,
    value: Value,
) -> (halves: (Value, Value))
    requires
        consistent_function(old(dfg)@, old(pos)@.layout, cfg@),
        old(pos)@.wf(),
        can_split(old(dfg)@, old(pos)@, value, ConcatKind::Integer),
    ensures
        split_done(
            old(dfg)@,
            old(pos)@,
            cfg@,
            value,
            ConcatKind::Integer,
            final(dfg)@,
            final(pos)@,
            halves,
        ),
{
    split_any(dfg, cfg, pos, value, ConcatKind::Integer)
}

/// Split `value` into halves using the `vsplit` semantics. Do this by
/// reusing existing values if possible.
///
/// The function must be consistent, as for `isplit`.
pub fn vsplit(
    dfg: &mut DataFlowGraph,
    cfg: &ControlFlowGraph,
    pos: &mut Cursor,
    value: Value,
) -> (halves: (Value, Value))
    requires
        consistent_function(old(dfg)@, old(pos)@.layout, cfg@),
        old(pos)@.wf(),
        can_split(old(dfg)@, old(pos)@, value, ConcatKind::Vector),
    ensures
        split_done(
            old(dfg)@,
            old(pos)@,
            cfg@,
            value,
            ConcatKind::Vector,
            final(dfg)@,
            final(pos)@,
            halves,
        ),
{
    split_any(dfg, cfg, pos, value, ConcatKind::Vector)
}

/// Generic version of `isplit` and `vsplit` controlled by the way `concat`
/// of splitting.
///
/// After the value is split, the predecessors of the blocks whose parameters
/// were split are repaired. Repairing a predecessor may split a parameter of
/// another block, whose predecessors are then repaired in turn. The repairs
/// that are due are kept on a stack, so that a long chain of blocks uses no
/// more than a longer stack; each parameter that is split is one parameter
/// less of the type of the value, so that the work ends, also where blocks
/// pass their parameters to each other in a circle.
pub fn split_any(
    dfg: &mut DataFlowGraph,
    cfg: &ControlFlowGraph,
    pos: &mut Cursor,
    value: Value,
    concat: ConcatKind,
) -> (halves: (Value, Value))
    requires
        consistent_function(old(dfg)@, old(pos)@.layout, cfg@),
        old(pos)@.wf(),
        can_split(old(dfg)@, old(pos)@, value, concat),
    ensures
        split_done(old(dfg)@, old(pos)@, cfg@, value, concat, final(dfg)@, final(pos)@, halves),
{
    let saved_pos = pos.position();
    let mut repairs: Vec<Repair> = Vec::new();
    let ghost ty = dfg@.value_type(value);
    let ghost origin = (dfg@, pos@.layout);
    let ghost case = split_case(dfg@, pos@.layout, value, concat);
    let result = split_value(dfg, pos, value, concat, &mut repairs);
    let ghost first = (dfg@, pos@.layout);
    proof {
        lemma_mending_start(origin.0, origin.1, cfg@, concat, ty);
        lemma_is_split(origin.0, origin.1, value, concat);
        if !(case is Reuse) {
            lemma_mending_split(
                origin.0,
                origin.1,
                origin.0,
                old(pos)@,
                cfg@,
                Set::empty(),
                concat,
                None,
                value,
            );
        }
        if case is Param {
            lemma_push_to_set(Seq::empty(), repair_of(origin.0, origin.0.resolve(value), concat));
        }
        assert(Seq::<Repair>::empty().to_set() =~= Set::<Repair>::empty());
        assert(repairs@.to_set() =~= split_pending(
            origin.0,
            origin.1,
            value,
            concat,
            Set::empty(),
        ));
    }

    // We have split the value requested, and now we may need to fix some predecessors.
    loop
        invariant_except_break
            mending(
                origin.0,
                origin.1,
                dfg@,
                pos@.layout,
                cfg@,
                repairs@.to_set(),
                concat,
                ty,
                None,
            ),
        invariant
            pos@.wf(),
            origin.1.has_position(saved_pos),
            is_split(dfg@, value, concat, result),
            !(case is Generic) ==> split_case(dfg@, pos@.layout, value, concat)
                == SplitCase::Reuse(result.0, result.1),
            !(case is Param) ==> repairs@.len() == 0 && (dfg@, pos@.layout) == first,
            dfg@.is_value(value),
        ensures
            mending(origin.0, origin.1, dfg@, pos@.layout, cfg@, Set::empty(), concat, ty, None),
        decreases count_params(dfg@.values, ty) + repairs@.len(),
    {
        let ghost before = (dfg@, pos@.layout);
        let ghost stack = repairs@;
        match repairs.pop() {
            Some(repair) => {
                proof {
                    assert(stack =~= repairs@.push(repair));
                    lemma_push_to_set(repairs@, repair);
                    assert(stack.to_set().contains(repair));
                    assert(repair_ok(before.0, repair, concat, ty));
                }
                repair_predecessors(dfg, cfg, pos, &repair, &mut repairs, Ghost(ty), Ghost(origin));
                proof {
                    lemma_is_split_grown(before.0, dfg@, value, concat, result);
                    lemma_reuse_grown(before.0, dfg@, before.1, pos@.layout, value, concat, result);
                }
            },
            None => {
                proof {
                    assert(repairs@.to_set() =~= Set::<Repair>::empty());
                }
                break ;
            },
        }
    }

    proof {
        lemma_mending_finished(origin.0, origin.1, dfg@, pos@.layout, cfg@, concat, ty);
    }
    pos.set_position(saved_pos);
    result
}

/// Work off one repair: fix up every predecessor of the block whose
/// parameter was split.
fn repair_predecessors(
    dfg: &mut DataFlowGraph,
    cfg: &ControlFlowGraph,
    pos: &mut Cursor,
    repair: &Repair,
    repairs: &mut Vec<Repair>,
    Ghost(ty): Ghost<Type>,
    Ghost(origin): Ghost<(DfgView, LayoutView)>,
)
    requires
        old(pos)@.wf(),
        mending(
            origin.0,
            origin.1,
            old(dfg)@,
            old(pos)@.layout,
            cfg@,
            old(repairs)@.to_set().insert(*repair),
            repair.concat,
            ty,
            None,
        ),
    ensures
        final(pos)@.wf(),
        mending(
            origin.0,
            origin.1,
            final(dfg)@,
            final(pos)@.layout,
            cfg@,
            final(repairs)@.to_set(),
            repair.concat,
            ty,
            None,
        ),
        grows(old(dfg)@, final(dfg)@),
        count_params(final(dfg)@.values, ty) + final(repairs)@.len() == count_params(
            old(dfg)@.values,
            ty,
        ) + old(repairs)@.len(),
{
    proof {
        assert(repairs@.to_set().insert(*repair).contains(*repair));
        assert(repair_ok(dfg@, *repair, repair.concat, ty));
        lemma_grows_reflexive(dfg@);
    }
    let preds = cfg.get_predecessors(repair.ebb);
    let mut k: usize = 0;
    while k < preds.len()
        invariant
            k <= preds@.len(),
            repair.num < repair.hi_num,
            repair.ebb.0 < cfg@.len(),
            preds@ == cfg@[repair.ebb.0 as int],
            pos@.wf(),
            mending(
                origin.0,
                origin.1,
                dfg@,
                pos@.layout,
                cfg@,
                repairs@.to_set().insert(*repair),
                repair.concat,
                ty,
                None,
            ),
            old(dfg)@.wf(),
            grows(old(dfg)@, dfg@),
            count_params(dfg@.values, ty) + repairs@.len() == count_params(old(dfg)@.values, ty)
                + old(repairs)@.len(),
            forall|j: int|
                0 <= j < k ==> is_repaired(
                    dfg@,
                    *repair,
                    fixed_args(dfg@, (#[trigger] preds@[j]).1),
                    dfg@.inst(preds@[j].1).args,
                ),
        decreases preds@.len() - k,
    {
        let inst = preds[k].1;
        let ghost before = dfg@;
        proof {
            assert(cfg@[repair.ebb.0 as int][k as int].1 == inst);
            assert(is_pred(cfg@, repair.ebb, inst));
        }
        repair_branch(dfg, pos, repair, inst, repairs, Ghost(cfg@), Ghost(ty), Ghost(origin));
        proof {
            lemma_grows_transitive(old(dfg)@, before, dfg@);
            // The predecessors that were repaired before are still repaired.
            assert forall|j: int| 0 <= j < k + 1 implies is_repaired(
                dfg@,
                *repair,
                fixed_args(dfg@, (#[trigger] preds@[j]).1),
                dfg@.inst(preds@[j].1).args,
            ) by {
                let other = preds@[j].1;
                if other != inst {
                    assert(cfg@[repair.ebb.0 as int][j].1 == other);
                    assert(is_pred(cfg@, repair.ebb, other));
                    lemma_repaired_kept(before, dfg@, *repair, other);
                }
            }
        }
        k = k + 1;
    }
    proof {
        assert forall|inst: Inst| #[trigger] is_pred(cfg@, repair.ebb, inst) implies is_repaired(
            dfg@,
            *repair,
            fixed_args(dfg@, inst),
            dfg@.inst(inst).args,
        ) by {
            let j = choose|j: int|
                0 <= j < cfg@[repair.ebb.0 as int].len() && (#[trigger] cfg@[repair.ebb.0 as int][j]).1
                    == inst;
            assert(preds@[j].1 == inst);
        }
        let pending = repairs@.to_set().insert(*repair);
        assert(pending.contains(*repair));
        lemma_mending_done(
            origin.0,
            origin.1,
            dfg@,
            pos@.layout,
            cfg@,
            pending,
            repairs@.to_set(),
            repair.concat,
            ty,
            *repair,
        );
    }
}

/// Fix up the predecessor `inst` of the block of `repair`: split the
/// argument that the branch passes for the parameter that was split, and
/// let the branch pass the two halves.
///
/// The list of arguments is taken out of the branch while the argument is
/// split, and put back afterwards. Splitting the argument may split a
/// parameter of another block and add a repair to `repairs`.
fn repair_branch(
    dfg: &mut DataFlowGraph,
    pos: &mut Cursor,
    repair: &Repair,
    inst: Inst,
    repairs: &mut Vec<Repair>,
    Ghost(cfg): Ghost<Seq<Seq<(Ebb, Inst)>>>,
    Ghost(ty): Ghost<Type>,
    Ghost(origin): Ghost<(DfgView, LayoutView)>,
)
    requires
        old(pos)@.wf(),
        is_pred(cfg, repair.ebb, inst),
        mending(
            origin.0,
            origin.1,
            old(dfg)@,
            old(pos)@.layout,
            cfg,
            old(repairs)@.to_set().insert(*repair),
            repair.concat,
            ty,
            None,
        ),
    ensures
        final(pos)@.wf(),
        mending(
            origin.0,
            origin.1,
            final(dfg)@,
            final(pos)@.layout,
            cfg,
            final(repairs)@.to_set().insert(*repair),
            repair.concat,
            ty,
            None,
        ),
        is_repaired(
            final(dfg)@,
            *repair,
            fixed_args(final(dfg)@, inst),
            final(dfg)@.inst(inst).args,
        ),
        grows(old(dfg)@, final(dfg)@),
        forall|i: Inst|
            old(dfg)@.is_inst(i) && i != inst ==> #[trigger] final(dfg)@.inst(i) == old(dfg)@.inst(
                i,
            ),
        count_params(final(dfg)@.values, ty) + final(repairs)@.len() == count_params(
            old(dfg)@.values,
            ty,
        ) + old(repairs)@.len(),
{
    let ghost kind = repair.concat;
    let ghost pending = repairs@.to_set().insert(*repair);
    let ghost start = dfg@;
    proof {
        assert(pending.contains(*repair));
        lemma_mending_take(
            origin.0,
            origin.1,
            start,
            pos@.layout,
            cfg,
            pending,
            kind,
            ty,
            repair.ebb,
            inst,
        );
        lemma_set_args_grows(start, pos@.layout, cfg, repair.ebb, inst, Seq::empty());
    }
    let branch_opc = dfg.opcode(inst);
    let fixed = branch_opc.fixed_value_arguments();
    let mut args = dfg.take_value_list(inst).unwrap();
    let ghost old_args = args@;
    let ghost taken = dfg@;
    proof {
        assert(pending.contains(*repair));
        assert(repair_ok(taken, *repair, kind, ty));
        assert(args_repairing(taken, pending, repair.ebb, fixed as int, old_args, ty));
        assert(fixed + repair.num < old_args.len());
        assert(slot_ok(taken, pending, repair.ebb, fixed as int, old_args, repair.num as int, ty));
        vstd::std_specs::vec::axiom_spec_len(&args);
        ty.lemma_half_differs();
    }

    // Get the old value passed to the parameter we're repairing.
    let old_arg = args[fixed + repair.num];

    // It's possible that the list of predecessors has duplicates. Detect them here.
    if dfg.value_type(old_arg) == repair.split_type {
        proof {
            lemma_mending_put_back(
                origin.0,
                origin.1,
                taken,
                pos@.layout,
                cfg,
                pending,
                kind,
                ty,
                inst,
                old_args,
                *repair,
            );
        }
        dfg.put_value_list(inst, args);
        proof {
            assert(dfg@ =~~= start);
            lemma_grows_reflexive(start);
        }
        return ;
    }
    // Split the old argument, possibly causing more repairs to be scheduled.

    pos.goto_inst(inst);
    let ghost before_repairs = repairs@;
    let ghost at_branch = pos@;
    let (lo, hi) = split_value(dfg, pos, old_arg, repair.concat, repairs);
    let ghost split = dfg@;
    proof {
        lemma_mending_split(
            origin.0,
            origin.1,
            taken,
            at_branch,
            cfg,
            pending,
            kind,
            Some((inst, old_args)),
            old_arg,
        );
        if split_case(taken, at_branch.layout, old_arg, kind) is Param {
            lemma_push_to_set(before_repairs, repair_of(taken, taken.resolve(old_arg), kind));
        }
        assert(repairs@.to_set().insert(*repair) =~= split_pending(
            taken,
            at_branch.layout,
            old_arg,
            kind,
            pending,
        ));
        assert(split.inst(inst) == taken.inst(inst));
        assert(at_branch.pos == CursorPosition::At(inst));
        lemma_mending_written(
            origin.0,
            origin.1,
            split,
            pos@.layout,
            cfg,
            repairs@.to_set().insert(*repair),
            kind,
            ty,
            inst,
            old_args,
            *repair,
            lo,
            hi,
        );
        lemma_set_args_grows(
            split,
            pos@.layout,
            cfg,
            repair.ebb,
            inst,
            repaired_args(old_args, fixed as int, *repair, lo, hi),
        );
        lemma_grows_transitive(start, taken, split);
    }

    // The `lo` part replaces the original argument, and the `hi` part goes at the end.
    write_halves(&mut args, fixed, repair, lo, hi);

    // Put the value list back after manipulating it.
    dfg.put_value_list(inst, args);
    proof {
        lemma_grows_transitive(start, split, dfg@);
    }
}

/// A branch that is repaired stays repaired while the graph grows and the
/// branch keeps its arguments.
proof fn lemma_repaired_kept(before: DfgView, after: DfgView, r: Repair, inst: Inst)
    requires
        before.wf(),
        before.is_inst(inst),
        grows(before, after),
        after.inst(inst) == before.inst(inst),
        r.num < r.hi_num,
        is_repaired(before, r, fixed_args(before, inst), before.inst(inst).args),
    ensures
        is_repaired(after, r, fixed_args(after, inst), after.inst(inst).args),
{
    assert(before.inst_wf(inst));
    assert(before.is_value(before.inst(inst).args[fixed_args(before, inst) + r.num]));
}

/// Write the halves `lo` and `hi` of the argument that `repair` is for into
/// the list `args` of a branch with `fixed` operands before its block
/// arguments: `lo` replaces the whole value, and `hi` goes to the place of
/// the new parameter. Several repairs may be due for the same block, so
/// there may be more than one argument missing: then `hi` also fills the
/// places before its own, which the other repairs will write.
fn write_halves(args: &mut Vec<Value>, fixed: usize, repair: &Repair, lo: Value, hi: Value)
    requires
        fixed + repair.num < old(args)@.len(),
        repair.num < repair.hi_num,
    ensures
        final(args)@ == repaired_args(old(args)@, fixed as int, *repair, lo, hi),
{
    let num_args = args.len();
    args[fixed + repair.num] = lo;
    if num_args - fixed > repair.hi_num {
        args[fixed + repair.hi_num] = hi;
    } else {
        while args.len() - fixed <= repair.hi_num
            invariant
                num_args == old(args)@.len(),
                fixed + repair.num < num_args <= args@.len() <= fixed + repair.hi_num + 1,
                args@ == old(args)@.update(fixed + repair.num, lo) + Seq::new(
                    (args@.len() - num_args) as nat,
                    |k: int| hi,
                ),
            decreases fixed + repair.hi_num + 1 - args@.len(),
        {
            args.push(hi);
        }
    }
}

/// Split a single value in the way `concat`.
///
/// If the value is defined by a concatenation, its operands are the halves.
/// If it is a parameter of a block other than the entry block, the parameter
/// is split and a repair of the predecessors of the block is added to
/// `repairs`. Otherwise a split instruction is inserted at the cursor.
///
/// Returns the low and the high half of `value`.
pub fn split_value(
    dfg: &mut DataFlowGraph,
    pos: &mut Cursor,
    value: Value,
    concat: ConcatKind,
    repairs: &mut Vec<Repair>,
) -> (halves: (Value, Value))
    requires
        function_wf(old(dfg)@, old(pos)@.layout),
        old(pos)@.wf(),
        can_split(old(dfg)@, old(pos)@, value, concat),
    ensures
        halves == split_halves(old(dfg)@, old(pos)@.layout, value, concat),
        final(dfg)@ == split_graph(old(dfg)@, old(pos)@.layout, value, concat),
        final(pos)@ == split_cursor(old(dfg)@, old(pos)@, value, concat),
        final(repairs)@ == split_repairs(
            old(dfg)@,
            old(pos)@.layout,
            value,
            concat,
            old(repairs)@,
        ),
        function_wf(final(dfg)@, final(pos)@.layout),
        final(pos)@.wf(),
{
    proof {
        dfg@.lemma_resolve(value);
    }
    let value = dfg.resolve_aliases(value);
    let mut reuse: Option<(Value, Value)> = None;
    proof {
        assert(dfg@.value_wf(value));
        assert(!(dfg@.value(value) is Detached));
        dfg@.lemma_resolve(value);
    }

    match dfg.value_def(value) {
        ValueDef::Res(inst, _num) => {
            // This is an instruction result. See if the value was created by a concatenation.
            proof {
                assert(dfg@.inst_wf(inst));
            }
            match dfg.inst_data(inst) {
                InstructionData::Binary { opcode, args } => {
                    if *opcode == concat.concat_opcode() {
                        reuse = Some((args[0], args[1]));
                    }
                },
                _ => {},
            }
        },
        ValueDef::Param(ebb, num) => {
            // This is a block parameter. It can be split unless the block is the entry
            // block, which has no predecessors to repair.
            let is_entry = match pos.layout().entry_block() {
                Some(entry) => entry == ebb,
                None => false,
            };
            if !is_entry {
                // The parameter at `num` is replaced by the low half, and the high half is
                // appended to the parameters: the numbers of the other parameters, which
                // repairs on the work list may hold, stay as they are.
                let ty = dfg.value_type(value);
                let split_type = concat.half_type(ty).unwrap();
                let lo = dfg.replace_ebb_param(value, split_type);
                let hi_num = dfg.num_ebb_params(ebb);
                let hi = dfg.append_ebb_param(ebb, split_type);
                reuse = Some((lo, hi));

                // The original value has lost its definition. A concatenation of the two
                // new parameters at the top of the block computes it, and is also the
                // record by which a later split of the value finds the two halves.
                pos.goto_top(ebb);
                pos.next_inst();
                proof {
                    old(pos)@.layout.lemma_position_after(CursorPosition::Before(ebb));
                }
                let concat_inst = dfg.make_inst(
                    InstructionData::Binary { opcode: concat.concat_opcode(), args: [lo, hi] },
                    ty,
                );
                pos.insert_inst(concat_inst);
                let concat_val = dfg.first_result(concat_inst);
                proof {
                    assert(dfg@.value(concat_val) is Inst);
                    assert(dfg@.resolve(concat_val) == concat_val);
                    assert(dfg@.inst_wf(concat_inst));
                }
                dfg.change_to_alias(value, concat_val);

                // The branches to the block must pass the two halves.
                add_repair(concat, split_type, ebb, num, hi_num, repairs);
                proof {
                    lemma_split_param_settled(old(dfg)@, value, concat);
                    assert(dfg@ == split_param(old(dfg)@, value, concat));
                    let top = old(pos)@.layout.position_after(CursorPosition::Before(ebb));
                    old(pos)@.layout.lemma_insert_at_position(top, concat_inst);
                    assert forall|e: Ebb| #[trigger] dfg@.is_ebb(e) implies pos@.layout.is_ebb_inserted(
                        e,
                    ) by {
                        assert(old(dfg)@.is_ebb(e));
                    }
                }
            }
        },
    }

    match reuse {
        Some(pair) => pair,
        None => {
            // No halves to use again: insert the split instruction at the cursor.
            let split_type = concat.half_type(dfg.value_type(value)).unwrap();
            let inst = dfg.make_inst(
                InstructionData::Unary { opcode: concat.split_opcode(), arg: value },
                split_type,
            );
            pos.insert_inst(inst);
            let results = dfg.inst_results(inst);
            proof {
                assert(dfg@.inst_wf(inst));
                old(pos)@.layout.lemma_insert_at_position(old(pos)@.pos, inst);
                assert forall|e: Ebb| #[trigger] dfg@.is_ebb(e) implies pos@.layout.is_ebb_inserted(
                    e,
                ) by {
                    assert(old(dfg)@.is_ebb(e));
                }
            }
            (results[0], results[1])
        },
    }
}

/// Add a repair to the work list.
pub fn add_repair(
    concat: ConcatKind,
    split_type: Type,
    ebb: Ebb,
    num: usize,
    hi_num: usize,
    repairs: &mut Vec<Repair>,
)
    ensures
        final(repairs)@ == old(repairs)@.push(
            Repair { concat: concat, split_type: split_type, ebb: ebb, num: num, hi_num: hi_num },
        ),
{
    repairs.push(Repair { concat, split_type, ebb, num, hi_num });
}

/// Reuse. Splitting a value that stands for the result of the
/// concatenation of `lo` and `hi` gives exactly `lo` and `hi`, and changes
/// nothing: no instruction and no value is created, the cursor stays, and
/// no repair is added.
pub proof fn lemma_split_of_concat_is_reuse(
    dfg: DfgView,
    cursor: CursorView,
    value: Value,
    kind: ConcatKind,
    repairs: Seq<Repair>,
    lo: Value,
    hi: Value,
)
    requires
        dfg.value(dfg.resolve(value)) is Inst,
        dfg.inst(dfg.value(dfg.resolve(value))->inst) == InstView::binary(
            kind.spec_concat_opcode(),
            lo,
            hi,
        ),
    ensures
        split_halves(dfg, cursor.layout, value, kind) == (lo, hi),
        split_graph(dfg, cursor.layout, value, kind) == dfg,
        split_cursor(dfg, cursor, value, kind) == cursor,
        split_repairs(dfg, cursor.layout, value, kind, repairs) == repairs,
{
}

/// Reuse, with the repairs. When `isplit`, `vsplit` or `split_any` splits a
/// value that stands for the result of the concatenation of `lo` and `hi`,
/// the halves are exactly `lo` and `hi`, and the graph, the layout and the
/// cursor are what they were.
pub proof fn lemma_split_of_concat_changes_nothing(
    before: DfgView,
    cursor: CursorView,
    cfg: Seq<Seq<(Ebb, Inst)>>,
    value: Value,
    kind: ConcatKind,
    after: DfgView,
    moved: CursorView,
    halves: (Value, Value),
    lo: Value,
    hi: Value,
)
    requires
        before.value(before.resolve(value)) is Inst,
        before.inst(before.value(before.resolve(value))->inst) == InstView::binary(
            kind.spec_concat_opcode(),
            lo,
            hi,
        ),
        split_done(before, cursor, cfg, value, kind, after, moved, halves),
    ensures
        halves == (lo, hi),
        after == before,
        moved == cursor,
{
}

/// Memo. After a value was split without a split instruction, as the
/// operands of a concatenation are used again or as a block parameter is
/// split, a second split of the same value gives the same halves and changes
/// nothing.
pub proof fn lemma_second_split_is_reuse(
    dfg: DfgView,
    cursor: CursorView,
    value: Value,
    kind: ConcatKind,
    repairs: Seq<Repair>,
)
    requires
        function_wf(dfg, cursor.layout),
        can_split(dfg, cursor, value, kind),
        !(split_case(dfg, cursor.layout, value, kind) is Generic),
        split_graph(dfg, cursor.layout, value, kind).wf(),
    ensures
        ({
            let halves = split_halves(dfg, cursor.layout, value, kind);
            let after = split_graph(dfg, cursor.layout, value, kind);
            let moved = split_cursor(dfg, cursor, value, kind);
            &&& split_halves(after, moved.layout, value, kind) == halves
            &&& split_graph(after, moved.layout, value, kind) == after
            &&& split_cursor(after, moved, value, kind) == moved
            &&& split_repairs(after, moved.layout, value, kind, repairs) == repairs
        }),
{
    let halves = split_halves(dfg, cursor.layout, value, kind);
    let after = split_graph(dfg, cursor.layout, value, kind);
    let moved = split_cursor(dfg, cursor, value, kind);
    dfg.lemma_resolve(value);
    lemma_is_split(dfg, cursor.layout, value, kind);
    assert(split_case(after, cursor.layout, value, kind) == SplitCase::Reuse(halves.0, halves.1));
    assert(split_case(after, moved.layout, value, kind) == SplitCase::Reuse(halves.0, halves.1));
}

/// Memo, with the repairs. After `isplit`, `vsplit` or `split_any` has
/// split a value without a split instruction, splitting the same value
/// again, with the cursor anywhere in the layout, gives the same halves and
/// changes nothing.
pub proof fn lemma_split_twice(
    before: DfgView,
    cursor: CursorView,
    cfg: Seq<Seq<(Ebb, Inst)>>,
    value: Value,
    kind: ConcatKind,
    after: DfgView,
    moved: CursorView,
    halves: (Value, Value),
    again: CursorView,
    last: DfgView,
    stayed: CursorView,
    same: (Value, Value),
)
    requires
        split_done(before, cursor, cfg, value, kind, after, moved, halves),
        !(split_case(before, cursor.layout, value, kind) is Generic),
        again.layout == moved.layout,
        split_done(after, again, cfg, value, kind, last, stayed, same),
    ensures
        same == halves,
        last == after,
        stayed == again,
{
    assert(split_case(after, again.layout, value, kind) == SplitCase::Reuse(halves.0, halves.1));
}

/// Parameter growth. After the parameter `num` of the block `ebb` was split
/// and the repairs were done, with no other parameter of `ebb` split on the
/// way, the block has gained exactly one parameter: the low half is at
/// `num`, and the high half is the new last parameter. Every predecessor
/// `inst` of `ebb`, however often and in whatever order the predecessors
/// are recorded, passes one argument more: the halves of the argument it
/// passed for the parameter are at the places of the two halves, and the
/// other arguments are those it passed before.
pub proof fn lemma_split_parameter_growth(
    before: DfgView,
    cursor: CursorView,
    cfg: Seq<Seq<(Ebb, Inst)>>,
    value: Value,
    kind: ConcatKind,
    after: DfgView,
    moved: CursorView,
    halves: (Value, Value),
    ebb: Ebb,
    num: usize,
    inst: Inst,
)
    requires
        consistent_function(before, cursor.layout, cfg),
        before.is_value(value),
        split_done(before, cursor, cfg, value, kind, after, moved, halves),
        split_case(before, cursor.layout, value, kind) == SplitCase::Param(ebb, num),
        forall|j: int|
            0 <= j < before.ebb_params(ebb).len() && j != num ==> (#[trigger] after.ebb_params(
                ebb,
            )[j]) == before.ebb_params(ebb)[j],
        is_pred(cfg, ebb, inst),
    ensures
        ({
            let hi_num = before.ebb_params(ebb).len() as int;
            let fixed = fixed_args(before, inst);
            let old_args = before.inst(inst).args;
            let args = after.inst(inst).args;
            &&& after.ebb_params(ebb) == before.ebb_params(ebb).update(num as int, halves.0).push(
                halves.1,
            )
            &&& old_args.len() == fixed + hi_num
            &&& args.len() == fixed + hi_num + 1
            &&& is_split(
                after,
                old_args[fixed + num],
                kind,
                (args[fixed + num], args[fixed + hi_num]),
            )
            &&& forall|j: int|
                0 <= j < hi_num && j != num ==> args[fixed + j] == #[trigger] old_args[fixed + j]
        }),
{
    let ty = before.value_type(value);
    let param = before.resolve(value);
    let j = num as int;
    before.lemma_resolve(value);
    assert(before.value_wf(param));
    assert(before.ebb_params(ebb)[j] == param);
    assert(tracked_params(before, after, kind, ty, ebb));
    assert(tracked_param(before, after, kind, ty, ebb, j));
    // The parameter was split: the value stands for the result of a concatenation, and
    // no more for a parameter.
    assert(after.ebb_params(ebb)[j] != param) by {
        if after.ebb_params(ebb)[j] == param {
            assert(after.ebb_wf(ebb));
            assert(after.resolve(param) == param);
            assert(before.resolve(param) == before.resolve(value));
        }
    }
    lemma_parameter_growth(before, after, cfg, kind, ty, ebb, j, inst);
    assert(after.resolve(param) == after.resolve(value)) by {
        assert(before.resolve(param) == before.resolve(value));
    }
    assert(param_split(before, after, kind, ebb, j));
    assert(after.ebb_params(ebb) =~= before.ebb_params(ebb).update(j, halves.0).push(halves.1));
    assert(args_consistent(after, ebb, fixed_args(after, inst), after.inst(inst).args));
    assert(before.is_inst(inst));
}

/// The concatenation opcode that undoes the split opcode `opcode`, if it is
/// one.
pub open spec fn concat_of_split(opcode: Opcode) -> Option<Opcode> {
    match opcode {
        Opcode::Isplit => Some(Opcode::Iconcat),
        Opcode::Vsplit => Some(Opcode::Vconcat),
        _ => None,
    }
}

/// A simpler way of computing `value`: where `value` is a result of a split
/// of the result of the matching concatenation, the operand of the
/// concatenation that the result gives back; else the value that `value`
/// stands for.
pub open spec fn resolved_split(dfg: DfgView, value: Value) -> Value {
    let v = dfg.resolve(value);
    match dfg.value(v) {
        ValueData::Inst { inst: split, num, .. } => {
            match concat_of_split(dfg.inst(split).opcode) {
                Some(concat_opc) => {
                    match dfg.value(dfg.resolve(dfg.inst(split).args[0])) {
                        ValueData::Inst { inst: concat, .. } => {
                            if dfg.inst(concat).opcode == concat_opc {
                                dfg.inst(concat).args[num as int]
                            } else {
                                v
                            }
                        },
                        _ => v,
                    }
                },
                None => v,
            }
        },
        _ => v,
    }
}

/// Strip concat-split chains. Return a simpler way of computing the same
/// value.
///
/// Given this input:
///
/// ```text
///     v10 = iconcat v1, v2
///     v11, v12 = isplit v10
/// ```
///
/// this function resolves `v11` to `v1` and `v12` to `v2`.
pub fn resolve_splits(dfg: &DataFlowGraph, value: Value) -> (simpler: Value)
    requires
        dfg@.wf(),
        dfg@.settled(),
        dfg@.is_value(value),
    ensures
        simpler == resolved_split(dfg@, value),
        dfg@.is_value(simpler),
{
    let value = dfg.resolve_aliases(value);
    proof {
        assert(dfg@.value_wf(value));
        assert(!(dfg@.value(value) is Detached));
        dfg@.lemma_resolve(value);
    }

    // Deconstruct a split instruction.
    let split_res;
    let concat_opc;
    let split_arg;
    match dfg.value_def(value) {
        ValueDef::Res(inst, num) => {
            proof {
                assert(dfg@.inst_wf(inst));
            }
            split_res = num;
            concat_opc =
            match dfg.opcode(inst) {
                Opcode::Isplit => Opcode::Iconcat,
                Opcode::Vsplit => Opcode::Vconcat,
                _ => {
                    return value;
                },
            };
            split_arg = dfg.inst_arg(inst, 0);
        },
        ValueDef::Param(_, _) => {
            return value;
        },
    }

    // See if split_arg is defined by a concatenation instruction.
    proof {
        dfg@.lemma_resolve(split_arg);
        let original = dfg@.resolve(split_arg);
        assert(dfg@.value_wf(original));
        assert(!(dfg@.value(original) is Detached));
    }
    match dfg.value_def(split_arg) {
        ValueDef::Res(inst, _) => {
            proof {
                assert(dfg@.inst_wf(inst));
            }
            if dfg.opcode(inst) == concat_opc {
                return dfg.inst_arg(inst, split_res);
            }
        },
        ValueDef::Param(_, _) => {},
    }

    value
}

/// The operands of an instruction, each replaced by the simpler way of
/// computing it that `resolved_split` gives.
pub open spec fn simplified_args(dfg: DfgView, args: Seq<Value>) -> Seq<Value> {
    Seq::new(args.len(), |k: int| resolved_split(dfg, args[k]))
}

/// Simplify the arguments to a branch *after* the instructions leading up to
/// the branch have been legalized.
///
/// The branch argument repairs performed by `split_any()` above may be
/// performed on branches that have not yet been legalized. The repaired
/// arguments can be defined by actual split instructions in that case.
///
/// After legalizing the instructions computing the value that was split, it
/// is likely that we can avoid depending on the split instruction. Its input
/// probably comes from a concatenation.
pub fn simplify_branch_arguments(dfg: &mut DataFlowGraph, branch: Inst)
    requires
        old(dfg)@.wf(),
        old(dfg)@.settled(),
        old(dfg)@.is_inst(branch),
    ensures
        final(dfg)@ == old(dfg)@.set_inst_args(
            branch,
            simplified_args(old(dfg)@, old(dfg)@.inst(branch).args),
        ),
        final(dfg)@.wf(),
        final(dfg)@.settled(),
{
    let mut new_args: Vec<Value> = Vec::new();
    let num_args = dfg.num_inst_args(branch);
    let ghost args = dfg@.inst(branch).args;
    proof {
        assert(dfg@.inst_wf(branch));
    }

    let mut k: usize = 0;
    while k < num_args
        invariant
            k <= num_args == args.len(),
            dfg@ == old(dfg)@,
            dfg@.wf(),
            dfg@.settled(),
            dfg@.is_inst(branch),
            args == dfg@.inst(branch).args,
            forall|j: int| 0 <= j < args.len() ==> dfg@.is_value(#[trigger] args[j]),
            forall|j: int| 0 <= j < new_args@.len() ==> dfg@.is_value(#[trigger] new_args@[j]),
            new_args@ == simplified_args(dfg@, args.subrange(0, k as int)),
        decreases num_args - k,
    {
        let arg = dfg.inst_arg(branch, k);
        let new_arg = resolve_splits(dfg, arg);
        new_args.push(new_arg);
        proof {
            assert(new_args@ =~= simplified_args(dfg@, args.subrange(0, k + 1)));
        }
        k = k + 1;
    }
    proof {
        assert(args.subrange(0, k as int) =~= args);
    }

    let mut k: usize = 0;
    while k < num_args
        invariant
            k <= num_args == args.len(),
            old(dfg)@.wf(),
            old(dfg)@.settled(),
            old(dfg)@.is_inst(branch),
            args == old(dfg)@.inst(branch).args,
            new_args@ == simplified_args(old(dfg)@, args),
            forall|j: int| 0 <= j < new_args@.len() ==> old(dfg)@.is_value(#[trigger] new_args@[j]),
            dfg@ == old(dfg)@.set_inst_args(
                branch,
                new_args@.subrange(0, k as int) + args.subrange(k as int, args.len() as int),
            ),
            dfg@.wf(),
            dfg@.settled(),
        decreases num_args - k,
    {
        let ghost before = dfg@;
        dfg.set_inst_arg(branch, k, new_args[k]);
        proof {
            let list = new_args@.subrange(0, k as int) + args.subrange(k as int, args.len() as int);
            let next = new_args@.subrange(0, k + 1) + args.subrange(k + 1, args.len() as int);
            assert(list.update(k as int, new_args@[k as int]) =~= next);
            assert(dfg@ =~~= old(dfg)@.set_inst_args(branch, next));
        }
        k = k + 1;
    }
    proof {
        let list = new_args@.subrange(0, k as int) + args.subrange(k as int, args.len() as int);
        assert(list =~= new_args@);
        if num_args == 0 {
            assert(dfg@ =~~= old(dfg)@);
            assert(old(dfg)@.set_inst_args(branch, new_args@) =~~= old(dfg)@);
        }
    }
}

} // verus!
