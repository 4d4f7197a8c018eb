//! Where the instructions that splitting adds stand in the layout.
//!
//! A value must be computed before it is used. The instructions that the
//! legalizer adds are placed accordingly: the concatenation that computes a
//! split block parameter stands at the top of the block of the parameter,
//! before every instruction that the block had, and a split instruction
//! stands in front of the branch that passes its results.

use crate::ir::dfg::DfgView;
use crate::ir::entities::{Inst, Value};
use crate::ir::layout::{CursorPosition, CursorView, LayoutView};
use crate::legalizer::consistency::{
    concats_typed, function_wf, grows, lemma_layout_after_split, lemma_split_graph,
    lemma_split_param,
};
use crate::legalizer::repairing::repaired_args;
use crate::legalizer::split::{
    can_split, split_case, split_cursor, split_graph, split_halves, ConcatKind, Repair,
    SplitCase,
};
use vstd::prelude::*;

verus! {

/// Every instruction that was added to `origin` and has a result in the
/// list `args` of operands of `user` stands in front of `user`: before it in
/// its block, and after every instruction that stood before `user`.
pub open spec fn list_placed(
    origin: DfgView,
    origin_layout: LayoutView,
    dfg: DfgView,
    layout: LayoutView,
    user: Inst,
    args: Seq<Value>,
) -> bool {
    forall|k: int|
        0 <= k < args.len() && dfg.value(#[trigger] args[k]) is Inst && !origin.is_inst(
            dfg.value(args[k])->inst,
        ) ==> origin_layout.stands_in_front(layout, dfg.value(args[k])->inst, user)
}

/// The instructions that were added to `origin` stand where their results
/// can be used.
///
/// - An instruction that was added and has a result among the operands of
///   an instruction of `origin` stands in front of that instruction: before
///   it in its block, and after every instruction that stood before it.
/// - A parameter of `origin` that is no parameter any more stands for the
///   result of an instruction that stands in the block of the parameter,
///   before every instruction that the block had.
/// - The operands of a concatenation that was added are no results of
///   instructions.
pub open spec fn placed(
    origin: DfgView,
    origin_layout: LayoutView,
    dfg: DfgView,
    layout: LayoutView,
    kind: ConcatKind,
) -> bool {
    &&& forall|user: Inst| #[trigger]
        origin.is_inst(user) ==> list_placed(origin, origin_layout, dfg, layout, user, dfg.inst(user).args)
    &&& forall|v: Value| #[trigger]
        origin.is_value(v) && origin.value(v) is Param && dfg.value(v) != origin.value(v) ==> {
            &&& dfg.value(dfg.resolve(v)) is Inst
            &&& origin_layout.stands_at_top(
                layout,
                dfg.value(dfg.resolve(v))->inst,
                origin.value(v)->ebb,
            )
        }
    &&& forall|made: Inst| #[trigger]
        dfg.is_inst(made) && !origin.is_inst(made) && dfg.inst(made).opcode
            == kind.spec_concat_opcode() ==> {
            &&& !(dfg.value(dfg.inst(made).args[0]) is Inst)
            &&& !(dfg.value(dfg.inst(made).args[1]) is Inst)
        }
}

/// The instructions stay placed when the operands of an instruction of
/// `origin` are replaced by a list that is placed.
pub(crate) proof fn lemma_placed_set_args(
    origin: DfgView,
    origin_layout: LayoutView,
    dfg: DfgView,
    layout: LayoutView,
    kind: ConcatKind,
    inst: Inst,
    args: Seq<Value>,
)
    requires
        grows(origin, dfg),
        placed(origin, origin_layout, dfg, layout, kind),
        origin.is_inst(inst),
        list_placed(origin, origin_layout, dfg, layout, inst, args),
    ensures
        placed(origin, origin_layout, dfg.set_inst_args(inst, args), layout, kind),
        list_placed(
            origin,
            origin_layout,
            dfg.set_inst_args(inst, args),
            layout,
            inst,
            dfg.inst(inst).args,
        ),
{
    let after = dfg.set_inst_args(inst, args);
    assert forall|user: Inst| #[trigger] origin.is_inst(user) implies list_placed(
        origin,
        origin_layout,
        after,
        layout,
        user,
        after.inst(user).args,
    ) by {
        let list = after.inst(user).args;
        assert(list_placed(origin, origin_layout, dfg, layout, user, dfg.inst(user).args));
        assert forall|k: int|
            0 <= k < list.len() && after.value(#[trigger] list[k]) is Inst && !origin.is_inst(
                after.value(list[k])->inst,
            ) implies origin_layout.stands_in_front(layout, after.value(list[k])->inst, user) by {
            assert(dfg.is_inst(user) && dfg.is_inst(inst));
            if user == inst {
                assert(list[k] == args[k]);
            } else {
                assert(after.inst(user) == dfg.inst(user));
            }
        }
    }
    assert forall|made: Inst| #[trigger]
        after.is_inst(made) && !origin.is_inst(made) && after.inst(made).opcode
            == kind.spec_concat_opcode() implies !(after.value(after.inst(made).args[0]) is Inst)
        && !(after.value(after.inst(made).args[1]) is Inst) by {
        assert(dfg.is_inst(made));
        assert(after.inst(made) == dfg.inst(made));
    }
    assert(list_placed(origin, origin_layout, dfg, layout, inst, dfg.inst(inst).args));
}

/// A list stays placed when a value is split.
pub(crate) proof fn lemma_list_placed_split(
    origin: DfgView,
    origin_layout: LayoutView,
    dfg: DfgView,
    cursor: CursorView,
    value: Value,
    kind: ConcatKind,
    user: Inst,
    args: Seq<Value>,
)
    requires
        function_wf(dfg, cursor.layout),
        cursor.wf(),
        can_split(dfg, cursor, value, kind),
        kind.spec_half_type(dfg.value_type(value)) is Some,
        concats_typed(dfg),
        split_graph(dfg, cursor.layout, value, kind).wf(),
        forall|k: int| 0 <= k < args.len() ==> dfg.is_value(#[trigger] args[k]),
        origin_layout.extended_by(cursor.layout),
        list_placed(origin, origin_layout, dfg, cursor.layout, user, args),
    ensures
        list_placed(
            origin,
            origin_layout,
            split_graph(dfg, cursor.layout, value, kind),
            split_cursor(dfg, cursor, value, kind).layout,
            user,
            args,
        ),
{
    let after = split_graph(dfg, cursor.layout, value, kind);
    let moved = split_cursor(dfg, cursor, value, kind).layout;
    lemma_split_graph(dfg, cursor.layout, value, kind);
    lemma_layout_after_split(dfg, cursor, value, kind);
    cursor.layout.lemma_stands_extended(origin_layout, moved);
    assert forall|k: int|
        0 <= k < args.len() && after.value(#[trigger] args[k]) is Inst && !origin.is_inst(
            after.value(args[k])->inst,
        ) implies origin_layout.stands_in_front(moved, after.value(args[k])->inst, user) by {
        assert(dfg.is_value(args[k]));
        assert(after.value(args[k]) == dfg.value(args[k]));
        let made = dfg.value(args[k])->inst;
        assert(origin_layout.stands_in_front(cursor.layout, made, user));
    }
}

/// The instructions stay placed when a value is split, and the halves are
/// placed for an instruction at the cursor.
pub(crate) proof fn lemma_placed_split(
    origin: DfgView,
    origin_layout: LayoutView,
    dfg: DfgView,
    cursor: CursorView,
    value: Value,
    kind: ConcatKind,
)
    requires
        origin.wf(),
        grows(origin, dfg),
        origin_layout.extended_by(cursor.layout),
        function_wf(dfg, cursor.layout),
        cursor.wf(),
        can_split(dfg, cursor, value, kind),
        kind.spec_half_type(dfg.value_type(value)) is Some,
        concats_typed(dfg),
        split_graph(dfg, cursor.layout, value, kind).wf(),
        placed(origin, origin_layout, dfg, cursor.layout, kind),
    ensures
        placed(
            origin,
            origin_layout,
            split_graph(dfg, cursor.layout, value, kind),
            split_cursor(dfg, cursor, value, kind).layout,
            kind,
        ),
        cursor.pos matches CursorPosition::At(user) ==> list_placed(
            origin,
            origin_layout,
            split_graph(dfg, cursor.layout, value, kind),
            split_cursor(dfg, cursor, value, kind).layout,
            user,
            seq![
                split_halves(dfg, cursor.layout, value, kind).0,
                split_halves(dfg, cursor.layout, value, kind).1,
            ],
        ),
{
    let layout = cursor.layout;
    let after = split_graph(dfg, layout, value, kind);
    let moved = split_cursor(dfg, cursor, value, kind).layout;
    let halves = split_halves(dfg, layout, value, kind);
    let v = dfg.resolve(value);
    dfg.lemma_resolve(value);
    assert(dfg.value_wf(v));
    lemma_split_graph(dfg, layout, value, kind);
    lemma_layout_after_split(dfg, cursor, value, kind);
    layout.lemma_stands_extended(origin_layout, moved);

    assert forall|user: Inst| #[trigger] origin.is_inst(user) implies list_placed(
        origin,
        origin_layout,
        after,
        moved,
        user,
        after.inst(user).args,
    ) by {
        assert(dfg.is_inst(user));
        assert(dfg.inst_wf(user));
        assert(after.inst(user) == dfg.inst(user));
        assert(list_placed(origin, origin_layout, dfg, layout, user, dfg.inst(user).args));
        lemma_list_placed_split(
            origin,
            origin_layout,
            dfg,
            cursor,
            value,
            kind,
            user,
            dfg.inst(user).args,
        );
    }

    assert forall|x: Value| #[trigger]
        origin.is_value(x) && origin.value(x) is Param && after.value(x) != origin.value(
            x,
        ) implies after.value(after.resolve(x)) is Inst && origin_layout.stands_at_top(
        moved,
        after.value(after.resolve(x))->inst,
        origin.value(x)->ebb,
    ) by {
        assert(dfg.is_value(x));
        if dfg.value(x) != origin.value(x) {
            let made = dfg.value(dfg.resolve(x))->inst;
            assert(origin_layout.stands_at_top(layout, made, origin.value(x)->ebb));
            assert(after.resolve(x) == dfg.resolve(x));
            dfg.lemma_resolve(x);
            assert(after.value(dfg.resolve(x)) == dfg.value(dfg.resolve(x)));
        } else {
            // The parameter is split now.
            assert(split_case(dfg, layout, value, kind) is Param);
            lemma_split_param(dfg, v, kind);
            assert(x == v);
            let ebb = dfg.value(v)->ebb;
            layout.lemma_inserted_at_top(ebb, dfg.next_inst());
            dfg.lemma_resolve(v);
            assert(after.value(after.resolve(x))->inst == dfg.next_inst());
            assert forall|j: Inst| #[trigger]
                origin_layout.is_inst_inserted(j) && origin_layout.inst_ebb[j]
                    == ebb implies moved.inst_index(dfg.next_inst()) < moved.inst_index(j) by {
                assert(layout.is_inst_inserted(j));
            }
        }
    }

    assert forall|made: Inst| #[trigger]
        after.is_inst(made) && !origin.is_inst(made) && after.inst(made).opcode
            == kind.spec_concat_opcode() implies !(after.value(after.inst(made).args[0]) is Inst)
        && !(after.value(after.inst(made).args[1]) is Inst) by {
        if dfg.is_inst(made) {
            assert(dfg.inst_wf(made));
            assert(after.inst(made) == dfg.inst(made));
            assert(dfg.is_value(dfg.inst(made).args[0]));
            assert(dfg.is_value(dfg.inst(made).args[1]));
        } else {
            assert(split_case(dfg, layout, value, kind) is Param);
            lemma_split_param(dfg, v, kind);
        }
    }

    if let CursorPosition::At(user) = cursor.pos {
        let list = seq![halves.0, halves.1];
        assert forall|k: int|
            0 <= k < list.len() && after.value(#[trigger] list[k]) is Inst && !origin.is_inst(
                after.value(list[k])->inst,
            ) implies origin_layout.stands_in_front(moved, after.value(list[k])->inst, user) by {
            match split_case(dfg, layout, value, kind) {
                SplitCase::Reuse(lo, hi) => {
                    // The operands of a concatenation of `origin` are values of `origin`,
                    // and the operands of one that was added are no results.
                    let concat = dfg.value(v)->inst;
                    assert(dfg.inst_wf(concat));
                    if origin.is_inst(concat) {
                        assert(origin.inst_wf(concat));
                        assert(origin.inst(concat) == dfg.inst(concat));
                        let h = list[k];
                        assert(origin.is_value(h));
                        assert(origin.value_wf(h));
                    }
                },
                SplitCase::Param(_, _) => {
                    lemma_split_param(dfg, v, kind);
                },
                SplitCase::Generic => {
                    layout.lemma_inserted_in_front(origin_layout, user, dfg.next_inst());
                    let made = dfg.next_inst();
                    assert(after.inst_wf(made));
                    assert(after.inst_results(made)[0] == halves.0);
                    assert(after.inst_results(made)[1] == halves.1);
                },
            }
        }
    }
}

/// The list is placed after a repair has written two halves into it that
/// are placed.
pub(crate) proof fn lemma_list_placed_written(
    origin: DfgView,
    origin_layout: LayoutView,
    dfg: DfgView,
    layout: LayoutView,
    user: Inst,
    args: Seq<Value>,
    fixed: int,
    r: Repair,
    lo: Value,
    hi: Value,
)
    requires
        0 <= fixed,
        fixed + r.num < args.len(),
        list_placed(origin, origin_layout, dfg, layout, user, args),
        list_placed(origin, origin_layout, dfg, layout, user, seq![lo, hi]),
    ensures
        list_placed(
            origin,
            origin_layout,
            dfg,
            layout,
            user,
            repaired_args(args, fixed, r, lo, hi),
        ),
{
    let written = repaired_args(args, fixed, r, lo, hi);
    let halves = seq![lo, hi];
    assert forall|k: int|
        0 <= k < written.len() && dfg.value(#[trigger] written[k]) is Inst && !origin.is_inst(
            dfg.value(written[k])->inst,
        ) implies origin_layout.stands_in_front(layout, dfg.value(written[k])->inst, user) by {
        if written[k] == lo {
            assert(halves[0] == lo);
        } else if written[k] == hi {
            assert(halves[1] == hi);
        } else {
            assert(written[k] == args[k]);
        }
    }
}

} // verus!
