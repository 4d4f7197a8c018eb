//! What the arguments of the branches are after block parameters were split.
//!
//! Splitting values changes the parameters of blocks and the arguments of
//! branches. `tracking` relates a function to the function it was when the
//! splitting began: a parameter is the one it was or was split into a
//! parameter at its place and one that was added, and a branch passes for
//! it the argument it passed before or, once repaired, the two halves of
//! that argument at the places of the two parameters.

use crate::ir::dfg::DfgView;
use crate::ir::entities::{Ebb, Inst, Value};
use crate::ir::instructions::InstView;
use crate::ir::layout::LayoutView;
use crate::ir::types::Type;
use crate::legalizer::consistency::{
    args_consistent, concats_typed, edges_consistent, edges_valid, fixed_args, function_wf,
    grows, is_pred, lemma_is_split_grown, lemma_set_args_grows, lemma_split_graph,
    lemma_split_param,
};
use crate::legalizer::repairing::{
    is_repaired, low_pending, repair_of, repaired_args, split_pending,
};
use crate::legalizer::split::{
    is_split, split_case, split_graph, split_param, ConcatKind, Repair, SplitCase,
};
use vstd::prelude::*;

verus! {

/// The number of the parameter that holds the high half of the former
/// parameter `old`, which stands for a concatenation of two parameters.
pub open spec fn high_place(dfg: DfgView, old: Value) -> int {
    let made = dfg.value(dfg.resolve(old))->inst;
    dfg.value(dfg.inst(made).args[1])->Param_num as int
}

/// The parameter `j` that `ebb` had in `start` was split: the value it was
/// stands for the concatenation of the parameter that `ebb` has at `j` now
/// and of a parameter that was added to `ebb`.
pub open spec fn param_split(
    start: DfgView,
    dfg: DfgView,
    kind: ConcatKind,
    ebb: Ebb,
    j: int,
) -> bool {
    let old = start.ebb_params(ebb)[j];
    let whole = dfg.resolve(old);
    let made = dfg.value(whole)->inst;
    let hi = dfg.inst(made).args[1];
    &&& dfg.value(whole) is Inst
    &&& dfg.inst(made) == InstView::binary(kind.spec_concat_opcode(), dfg.ebb_params(ebb)[j], hi)
    &&& dfg.value(hi) is Param
    &&& dfg.value(hi)->ebb == ebb
    &&& start.ebb_params(ebb).len() <= high_place(dfg, old)
}

/// The parameter `j` that `ebb` had in `start` is still there, or it was of
/// type `ty` and was split into parameters of the half type.
pub open spec fn tracked_param(
    start: DfgView,
    dfg: DfgView,
    kind: ConcatKind,
    ty: Type,
    ebb: Ebb,
    j: int,
) -> bool {
    let old = start.ebb_params(ebb)[j];
    ||| dfg.ebb_params(ebb)[j] == old
    ||| {
        &&& start.value_type(old) == ty
        &&& Some(dfg.value_type(dfg.ebb_params(ebb)[j])) == kind.spec_half_type(ty)
        &&& param_split(start, dfg, kind, ebb, j)
    }
}

/// The parameter `h` of `ebb` was added for the high half of a parameter
/// that `ebb` had in `start` and that was split.
pub open spec fn added_for_split(start: DfgView, dfg: DfgView, ebb: Ebb, h: int) -> bool {
    exists|j: int|
        0 <= j < start.ebb_params(ebb).len() && (#[trigger] dfg.ebb_params(ebb)[j])
            != start.ebb_params(ebb)[j] && high_place(dfg, start.ebb_params(ebb)[j]) == h
}

/// The parameters of `ebb` are those it had in `start`, each still there or
/// split, and then the parameters of the half type that were added for the
/// high halves, one for each parameter that was split.
pub open spec fn tracked_params(
    start: DfgView,
    dfg: DfgView,
    kind: ConcatKind,
    ty: Type,
    ebb: Ebb,
) -> bool {
    let before = start.ebb_params(ebb);
    let params = dfg.ebb_params(ebb);
    &&& before.len() <= params.len()
    &&& forall|j: int|
        0 <= j < before.len() ==> #[trigger] tracked_param(start, dfg, kind, ty, ebb, j)
    &&& forall|j: int|
        before.len() <= j < params.len() ==> Some(dfg.value_type(#[trigger] params[j]))
            == kind.spec_half_type(ty)
    &&& forall|h: int|
        before.len() <= h < params.len() ==> #[trigger] added_for_split(start, dfg, ebb, h)
    &&& forall|j: int, k: int|
        0 <= j < before.len() && 0 <= k < before.len() && j != k && #[trigger] params[j]
            != before[j] && #[trigger] params[k] != before[k] ==> high_place(dfg, before[j])
            != high_place(dfg, before[k])
}

/// The list `args` of a branch to `ebb` passes for the parameter `j` that
/// `ebb` had in `start` what the list `before` passed, or, where the
/// parameter was split and the branch was repaired, the halves of what
/// `before` passed, at the places of the two parameters. Where the parameter
/// was split and the branch still passes the whole value, a repair is due.
pub open spec fn tracked_slot(
    start: DfgView,
    dfg: DfgView,
    pending: Set<Repair>,
    kind: ConcatKind,
    ty: Type,
    ebb: Ebb,
    fixed: int,
    before: Seq<Value>,
    args: Seq<Value>,
    j: int,
) -> bool {
    let old = start.ebb_params(ebb)[j];
    if dfg.ebb_params(ebb)[j] == old {
        args[fixed + j] == before[fixed + j]
    } else {
        ||| {
            &&& args[fixed + j] == before[fixed + j]
            &&& dfg.value_type(args[fixed + j]) == ty
            &&& low_pending(pending, ebb, j)
        }
        ||| {
            let h = high_place(dfg, old);
            &&& fixed + h < args.len()
            &&& Some(dfg.value_type(args[fixed + j])) == kind.spec_half_type(ty)
            &&& is_split(dfg, before[fixed + j], kind, (args[fixed + j], args[fixed + h]))
        }
    }
}

/// The list `args` of a branch to `ebb` is as `tracked_slot` says for every
/// parameter that `ebb` had in `start`, when the list was `before`.
pub open spec fn tracked_args(
    start: DfgView,
    dfg: DfgView,
    pending: Set<Repair>,
    kind: ConcatKind,
    ty: Type,
    ebb: Ebb,
    fixed: int,
    before: Seq<Value>,
    args: Seq<Value>,
) -> bool {
    &&& 0 <= fixed
    &&& before.len() == fixed + start.ebb_params(ebb).len()
    &&& before.len() <= args.len()
    &&& forall|j: int|
        0 <= j < start.ebb_params(ebb).len() ==> #[trigger] tracked_slot(
            start,
            dfg,
            pending,
            kind,
            ty,
            ebb,
            fixed,
            before,
            args,
            j,
        )
}

/// The repair `r` is for a parameter that its block had in `start` and that
/// was split, with the high half at the place that the repair names.
pub open spec fn tracked_repair(start: DfgView, dfg: DfgView, r: Repair) -> bool {
    let before = start.ebb_params(r.ebb);
    &&& r.num < before.len()
    &&& dfg.ebb_params(r.ebb)[r.num as int] != before[r.num as int]
    &&& high_place(dfg, before[r.num as int]) == r.hi_num
}

/// The function has come out of `start` by splitting parameters of type
/// `ty` in the way `kind`, with the repairs `pending` still due: the
/// parameters of every block are as `tracked_params` says, the repairs as
/// `tracked_repair` says, and the arguments of every predecessor of every
/// block, except the branch `skip` whose list is taken out, as
/// `tracked_args` says.
pub open spec fn tracking(
    start: DfgView,
    dfg: DfgView,
    cfg: Seq<Seq<(Ebb, Inst)>>,
    pending: Set<Repair>,
    kind: ConcatKind,
    ty: Type,
    skip: Option<Inst>,
) -> bool {
    &&& forall|ebb: Ebb| #[trigger] start.is_ebb(ebb) ==> tracked_params(start, dfg, kind, ty, ebb)
    &&& forall|r: Repair| #[trigger] pending.contains(r) ==> tracked_repair(start, dfg, r)
    &&& forall|ebb: Ebb, inst: Inst| #[trigger]
        is_pred(cfg, ebb, inst) && skip != Some(inst) ==> tracked_args(
            start,
            dfg,
            pending,
            kind,
            ty,
            ebb,
            fixed_args(start, inst),
            start.inst(inst).args,
            dfg.inst(inst).args,
        )
}

/// The repairs are done: every block has the parameters it had in `before`,
/// each still there or split, and one more for each that was split; and
/// every branch that `cfg` records passes for each of them the argument it
/// passed in `before` or, where the parameter was split, the halves of that
/// argument at the places of the two halves.
pub open spec fn branches_follow(
    before: DfgView,
    after: DfgView,
    cfg: Seq<Seq<(Ebb, Inst)>>,
    kind: ConcatKind,
    ty: Type,
) -> bool {
    tracking(before, after, cfg, Set::empty(), kind, ty, None)
}

/// A consistent function has come out of itself with no repair due.
pub(crate) proof fn lemma_tracking_start(
    start: DfgView,
    cfg: Seq<Seq<(Ebb, Inst)>>,
    kind: ConcatKind,
    ty: Type,
)
    requires
        edges_consistent(start, cfg),
    ensures
        tracking(start, start, cfg, Set::empty(), kind, ty, None),
{
    assert forall|ebb: Ebb| #[trigger] start.is_ebb(ebb) implies tracked_params(
        start,
        start,
        kind,
        ty,
        ebb,
    ) by {
        assert forall|j: int| 0 <= j < start.ebb_params(ebb).len() implies #[trigger] tracked_param(
            start,
            start,
            kind,
            ty,
            ebb,
            j,
        ) by {}
    }
    assert forall|ebb: Ebb, inst: Inst| #[trigger] is_pred(cfg, ebb, inst) implies tracked_args(
        start,
        start,
        Set::empty(),
        kind,
        ty,
        ebb,
        fixed_args(start, inst),
        start.inst(inst).args,
        start.inst(inst).args,
    ) by {
        let args = start.inst(inst).args;
        let fixed = fixed_args(start, inst);
        assert(args_consistent(start, ebb, fixed, args));
        assert forall|j: int| 0 <= j < start.ebb_params(ebb).len() implies #[trigger] tracked_slot(
            start,
            start,
            Set::empty(),
            kind,
            ty,
            ebb,
            fixed,
            args,
            args,
            j,
        ) by {}
    }
}

/// A parameter that was split stays split, with its high half at the same
/// place, when the graph grows and keeps the two parameters.
pub(crate) proof fn lemma_param_split_kept(
    start: DfgView,
    before: DfgView,
    after: DfgView,
    kind: ConcatKind,
    ebb: Ebb,
    j: int,
)
    requires
        start.wf(),
        before.wf(),
        after.wf(),
        start.is_ebb(ebb),
        before.is_ebb(ebb),
        after.is_ebb(ebb),
        grows(start, before),
        grows(before, after),
        0 <= j < start.ebb_params(ebb).len(),
        j < before.ebb_params(ebb).len(),
        param_split(start, before, kind, ebb, j),
        after.ebb_params(ebb)[j] == before.ebb_params(ebb)[j],
        high_place(before, start.ebb_params(ebb)[j]) < after.ebb_params(ebb).len(),
        after.ebb_params(ebb)[high_place(before, start.ebb_params(ebb)[j])]
            == before.ebb_params(ebb)[high_place(before, start.ebb_params(ebb)[j])],
    ensures
        param_split(start, after, kind, ebb, j),
        high_place(after, start.ebb_params(ebb)[j]) == high_place(
            before,
            start.ebb_params(ebb)[j],
        ),
{
    let old = start.ebb_params(ebb)[j];
    assert(start.ebb_wf(ebb));
    assert(start.is_value(old));
    assert(before.is_value(old));
    before.lemma_resolve(old);
    let whole = before.resolve(old);
    let made = before.value(whole)->inst;
    let hi = before.inst(made).args[1];
    let h = high_place(before, old);
    assert(before.value_wf(whole));
    assert(before.is_inst(made));
    assert(before.inst_wf(made));
    assert(after.resolve(old) == whole);
    assert(after.value(whole) == before.value(whole));
    assert(after.inst(made) == before.inst(made));
    assert(before.is_value(hi));
    assert(before.value_wf(hi));
    assert(before.ebb_params(ebb)[h] == hi);
    assert(after.ebb_wf(ebb));
    assert(after.ebb_params(ebb)[h] == hi);
}

/// The parameters of a block stay as `tracked_params` says, with the high
/// halves at the same places, when the graph grows and keeps the parameters
/// of the block.
pub(crate) proof fn lemma_tracked_params_kept(
    start: DfgView,
    before: DfgView,
    after: DfgView,
    kind: ConcatKind,
    ty: Type,
    ebb: Ebb,
)
    requires
        start.wf(),
        before.wf(),
        after.wf(),
        start.is_ebb(ebb),
        grows(start, before),
        grows(before, after),
        tracked_params(start, before, kind, ty, ebb),
        after.ebb_params(ebb) == before.ebb_params(ebb),
    ensures
        tracked_params(start, after, kind, ty, ebb),
        forall|j: int|
            0 <= j < start.ebb_params(ebb).len() && (#[trigger] before.ebb_params(ebb)[j])
                != start.ebb_params(ebb)[j] ==> high_place(after, start.ebb_params(ebb)[j])
                == high_place(before, start.ebb_params(ebb)[j]),
{
    let old = start.ebb_params(ebb);
    let params = before.ebb_params(ebb);
    assert(before.ebb_wf(ebb));
    assert forall|j: int| 0 <= j < old.len() && (#[trigger] params[j]) != old[j] implies high_place(
        after,
        old[j],
    ) == high_place(before, old[j]) && param_split(start, after, kind, ebb, j) by {
        assert(tracked_param(start, before, kind, ty, ebb, j));
        lemma_high_place(start, before, kind, ebb, j);
        lemma_param_split_kept(start, before, after, kind, ebb, j);
    }
    assert forall|j: int| 0 <= j < old.len() implies #[trigger] tracked_param(
        start,
        after,
        kind,
        ty,
        ebb,
        j,
    ) by {
        assert(tracked_param(start, before, kind, ty, ebb, j));
        assert(before.is_value(params[j]));
    }
    assert forall|j: int| old.len() <= j < params.len() implies Some(
        after.value_type(#[trigger] params[j]),
    ) == kind.spec_half_type(ty) by {
        assert(before.is_value(params[j]));
    }
    assert forall|h: int| old.len() <= h < params.len() implies #[trigger] added_for_split(
        start,
        after,
        ebb,
        h,
    ) by {
        assert(added_for_split(start, before, ebb, h));
        let j = choose|j: int|
            0 <= j < old.len() && (#[trigger] params[j]) != old[j] && high_place(before, old[j])
                == h;
        assert(after.ebb_params(ebb)[j] != old[j]);
    }
}

/// The high half of a parameter that was split is a parameter of the block,
/// at the place that `high_place` gives.
pub(crate) proof fn lemma_high_place(start: DfgView, dfg: DfgView, kind: ConcatKind, ebb: Ebb, j: int)
    requires
        start.wf(),
        dfg.wf(),
        start.is_ebb(ebb),
        grows(start, dfg),
        0 <= j < start.ebb_params(ebb).len(),
        param_split(start, dfg, kind, ebb, j),
    ensures
        start.ebb_params(ebb).len() <= high_place(dfg, start.ebb_params(ebb)[j])
            < dfg.ebb_params(ebb).len(),
        dfg.ebb_params(ebb)[high_place(dfg, start.ebb_params(ebb)[j])] == dfg.inst(
            dfg.value(dfg.resolve(start.ebb_params(ebb)[j]))->inst,
        ).args[1],
{
    let old = start.ebb_params(ebb)[j];
    assert(start.ebb_wf(ebb));
    assert(start.is_value(old));
    assert(dfg.is_value(old));
    dfg.lemma_resolve(old);
    let whole = dfg.resolve(old);
    let made = dfg.value(whole)->inst;
    let hi = dfg.inst(made).args[1];
    assert(dfg.value_wf(whole));
    assert(dfg.inst_wf(made));
    assert(dfg.is_value(hi));
    assert(dfg.value_wf(hi));
}

/// A list stays as `tracked_args` says when the graph grows and keeps the
/// parameters of the block, and no repair is dropped.
pub(crate) proof fn lemma_tracked_args_kept(
    start: DfgView,
    before: DfgView,
    after: DfgView,
    pending: Set<Repair>,
    more: Set<Repair>,
    kind: ConcatKind,
    ty: Type,
    ebb: Ebb,
    fixed: int,
    old_args: Seq<Value>,
    args: Seq<Value>,
)
    requires
        start.wf(),
        before.wf(),
        after.wf(),
        start.is_ebb(ebb),
        grows(start, before),
        grows(before, after),
        tracked_params(start, before, kind, ty, ebb),
        after.ebb_params(ebb) == before.ebb_params(ebb),
        tracked_args(start, before, pending, kind, ty, ebb, fixed, old_args, args),
        forall|k: int| 0 <= k < old_args.len() ==> start.is_value(#[trigger] old_args[k]),
        forall|k: int| 0 <= k < args.len() ==> before.is_value(#[trigger] args[k]),
        forall|r: Repair| pending.contains(r) ==> #[trigger] more.contains(r),
    ensures
        tracked_args(start, after, more, kind, ty, ebb, fixed, old_args, args),
{
    lemma_tracked_params_kept(start, before, after, kind, ty, ebb);
    let old = start.ebb_params(ebb);
    assert forall|j: int| 0 <= j < old.len() implies #[trigger] tracked_slot(
        start,
        after,
        more,
        kind,
        ty,
        ebb,
        fixed,
        old_args,
        args,
        j,
    ) by {
        assert(tracked_slot(start, before, pending, kind, ty, ebb, fixed, old_args, args, j));
        assert(before.is_value(args[fixed + j]));
        if before.ebb_params(ebb)[j] != old[j] {
            if low_pending(pending, ebb, j) {
                let r = choose|r: Repair|
                    #[trigger] pending.contains(r) && r.ebb == ebb && r.num == j;
                assert(more.contains(r));
            }
            let h = high_place(before, old[j]);
            if fixed + h < args.len() && is_split(
                before,
                old_args[fixed + j],
                kind,
                (args[fixed + j], args[fixed + h]),
            ) {
                assert(start.is_value(old_args[fixed + j]));
                lemma_is_split_grown(
                    before,
                    after,
                    old_args[fixed + j],
                    kind,
                    (args[fixed + j], args[fixed + h]),
                );
            }
        }
    }
}

/// The parameters of a block stay as `tracked_params` says when a parameter
/// of type `ty` is split. The parameter that is split is one that its block
/// had in `start`; its high half is the new last parameter of the block, and
/// the high halves of the other parameters stay at their places.
pub(crate) proof fn lemma_tracked_params_split_param(
    start: DfgView,
    dfg: DfgView,
    param: Value,
    kind: ConcatKind,
    ebb: Ebb,
)
    requires
        start.wf(),
        dfg.wf(),
        split_param(dfg, param, kind).wf(),
        grows(start, dfg),
        grows(dfg, split_param(dfg, param, kind)),
        dfg.is_value(param),
        dfg.value(param) is Param,
        kind.spec_half_type(dfg.value_type(param)) is Some,
        start.is_ebb(ebb),
        tracked_params(start, dfg, kind, dfg.value_type(param), ebb),
    ensures
        tracked_params(start, split_param(dfg, param, kind), kind, dfg.value_type(param), ebb),
        forall|j: int|
            0 <= j < start.ebb_params(ebb).len() && (#[trigger] dfg.ebb_params(ebb)[j])
                != start.ebb_params(ebb)[j] ==> {
                &&& split_param(dfg, param, kind).ebb_params(ebb)[j] == dfg.ebb_params(ebb)[j]
                &&& high_place(split_param(dfg, param, kind), start.ebb_params(ebb)[j])
                    == high_place(dfg, start.ebb_params(ebb)[j])
            },
        ebb == dfg.value(param)->ebb ==> {
            let num = dfg.value(param)->Param_num as int;
            &&& num < start.ebb_params(ebb).len()
            &&& start.ebb_params(ebb)[num] == param
            &&& dfg.ebb_params(ebb)[num] == param
            &&& split_param(dfg, param, kind).ebb_params(ebb)[num] != param
            &&& high_place(split_param(dfg, param, kind), param) == dfg.ebb_params(ebb).len()
        },
        forall|j: int|
            0 <= j < start.ebb_params(ebb).len() && !(ebb == dfg.value(param)->ebb && j
                == dfg.value(param)->Param_num) ==> (#[trigger] split_param(
                dfg,
                param,
                kind,
            ).ebb_params(ebb)[j]) == dfg.ebb_params(ebb)[j],
{
    let after = split_param(dfg, param, kind);
    let ty = dfg.value_type(param);
    let target = dfg.value(param)->ebb;
    let num = dfg.value(param)->Param_num as int;
    lemma_split_param(dfg, param, kind);
    ty.lemma_half_differs();
    assert(dfg.value_wf(param));
    if ebb != target {
        lemma_tracked_params_kept(start, dfg, after, kind, ty, ebb);
    } else {
        let old = start.ebb_params(ebb);
        let params = dfg.ebb_params(ebb);
        let n = params.len() as int;
        let lo = dfg.next_value();
        let hi = Value((dfg.values.len() + 1) as usize);
        let result = Value((dfg.values.len() + 2) as usize);
        assert(dfg.ebb_wf(ebb));
        assert(start.ebb_wf(ebb));
        assert(params[num] == param);
        assert(num < old.len());
        assert(tracked_param(start, dfg, kind, ty, ebb, num));
        assert(old[num] == param);
        assert(start.is_value(param));
        dfg.lemma_resolve(param);
        assert(after.resolve(param) == result);
        assert(after.inst(dfg.next_inst()) == InstView::binary(kind.spec_concat_opcode(), lo, hi));
        assert(after.ebb_params(ebb)[num] == lo);
        assert(after.ebb_params(ebb)[n] == hi);
        assert(high_place(after, param) == n);
        assert(param_split(start, after, kind, ebb, num));

        assert forall|j: int| 0 <= j < old.len() && (#[trigger] params[j]) != old[j] implies {
            &&& after.ebb_params(ebb)[j] == params[j]
            &&& high_place(after, old[j]) == high_place(dfg, old[j])
            &&& param_split(start, after, kind, ebb, j)
            &&& high_place(dfg, old[j]) < n
        } by {
            assert(tracked_param(start, dfg, kind, ty, ebb, j));
            lemma_high_place(start, dfg, kind, ebb, j);
            lemma_param_split_kept(start, dfg, after, kind, ebb, j);
        }
        assert forall|j: int| 0 <= j < old.len() implies #[trigger] tracked_param(
            start,
            after,
            kind,
            ty,
            ebb,
            j,
        ) by {
            assert(tracked_param(start, dfg, kind, ty, ebb, j));
            assert(dfg.is_value(params[j]));
            if j != num {
                assert(after.ebb_params(ebb)[j] == params[j]);
            }
        }
        assert forall|j: int| old.len() <= j < after.ebb_params(ebb).len() implies Some(
            after.value_type(#[trigger] after.ebb_params(ebb)[j]),
        ) == kind.spec_half_type(ty) by {
            if j < n {
                assert(after.ebb_params(ebb)[j] == params[j]);
                assert(dfg.is_value(params[j]));
            }
        }
        assert forall|h: int|
            old.len() <= h < after.ebb_params(ebb).len() implies #[trigger] added_for_split(
            start,
            after,
            ebb,
            h,
        ) by {
            if h < n {
                assert(added_for_split(start, dfg, ebb, h));
                let j = choose|j: int|
                    0 <= j < old.len() && (#[trigger] params[j]) != old[j] && high_place(
                        dfg,
                        old[j],
                    ) == h;
                assert(after.ebb_params(ebb)[j] != old[j]);
            } else {
                assert(after.ebb_params(ebb)[num] != old[num]);
            }
        }
        assert forall|j: int, k: int|
            0 <= j < old.len() && 0 <= k < old.len() && j != k && #[trigger] after.ebb_params(
                ebb,
            )[j] != old[j] && #[trigger] after.ebb_params(ebb)[k] != old[k] implies high_place(
            after,
            old[j],
        ) != high_place(after, old[k]) by {
            if j != num {
                assert(params[j] != old[j]);
            }
            if k != num {
                assert(params[k] != old[k]);
            }
        }
    }
}

/// A list stays as `tracked_args` says when a parameter of type `ty` is
/// split and its repair is added.
pub(crate) proof fn lemma_tracked_args_split_param(
    start: DfgView,
    dfg: DfgView,
    param: Value,
    kind: ConcatKind,
    pending: Set<Repair>,
    ebb: Ebb,
    fixed: int,
    old_args: Seq<Value>,
    args: Seq<Value>,
)
    requires
        start.wf(),
        dfg.wf(),
        split_param(dfg, param, kind).wf(),
        grows(start, dfg),
        grows(dfg, split_param(dfg, param, kind)),
        dfg.is_value(param),
        dfg.value(param) is Param,
        kind.spec_half_type(dfg.value_type(param)) is Some,
        start.is_ebb(ebb),
        tracked_params(start, dfg, kind, dfg.value_type(param), ebb),
        tracked_args(
            start,
            dfg,
            pending,
            kind,
            dfg.value_type(param),
            ebb,
            fixed,
            old_args,
            args,
        ),
        args_consistent(start, ebb, fixed, old_args),
        forall|k: int| 0 <= k < old_args.len() ==> start.is_value(#[trigger] old_args[k]),
        forall|k: int| 0 <= k < args.len() ==> dfg.is_value(#[trigger] args[k]),
    ensures
        tracked_args(
            start,
            split_param(dfg, param, kind),
            pending.insert(repair_of(dfg, param, kind)),
            kind,
            dfg.value_type(param),
            ebb,
            fixed,
            old_args,
            args,
        ),
{
    let after = split_param(dfg, param, kind);
    let ty = dfg.value_type(param);
    let target = dfg.value(param)->ebb;
    let num = dfg.value(param)->Param_num as int;
    let added = repair_of(dfg, param, kind);
    let more = pending.insert(added);
    lemma_split_param(dfg, param, kind);
    lemma_tracked_params_split_param(start, dfg, param, kind, ebb);
    assert(dfg.value_wf(param));
    assert(start.ebb_wf(ebb));
    let old = start.ebb_params(ebb);
    assert forall|j: int| 0 <= j < old.len() implies #[trigger] tracked_slot(
        start,
        after,
        more,
        kind,
        ty,
        ebb,
        fixed,
        old_args,
        args,
        j,
    ) by {
        assert(tracked_slot(start, dfg, pending, kind, ty, ebb, fixed, old_args, args, j));
        assert(dfg.is_value(args[fixed + j]));
        if ebb == target && j == num {
            assert(more.contains(added));
            assert(low_pending(more, ebb, j));
            assert(start.is_value(old_args[fixed + j]));
            assert(start.is_value(old[j]));
            assert(start.value_type(old_args[fixed + j]) == start.value_type(old[j]));
        } else {
            assert(after.ebb_params(ebb)[j] == dfg.ebb_params(ebb)[j]);
            if dfg.ebb_params(ebb)[j] != old[j] {
                if low_pending(pending, ebb, j) {
                    let r = choose|r: Repair|
                        #[trigger] pending.contains(r) && r.ebb == ebb && r.num == j;
                    assert(more.contains(r));
                }
                let h = high_place(dfg, old[j]);
                if fixed + h < args.len() && is_split(
                    dfg,
                    old_args[fixed + j],
                    kind,
                    (args[fixed + j], args[fixed + h]),
                ) {
                    assert(start.is_value(old_args[fixed + j]));
                    lemma_is_split_grown(
                        dfg,
                        after,
                        old_args[fixed + j],
                        kind,
                        (args[fixed + j], args[fixed + h]),
                    );
                }
            }
        }
    }
}

/// The repairs stay as `tracked_repair` says when a parameter is split, and
/// the repair that is added is as `tracked_repair` says.
pub(crate) proof fn lemma_tracked_repairs_split_param(
    start: DfgView,
    dfg: DfgView,
    param: Value,
    kind: ConcatKind,
    pending: Set<Repair>,
)
    requires
        start.wf(),
        dfg.wf(),
        split_param(dfg, param, kind).wf(),
        grows(start, dfg),
        grows(dfg, split_param(dfg, param, kind)),
        dfg.is_value(param),
        dfg.value(param) is Param,
        kind.spec_half_type(dfg.value_type(param)) is Some,
        forall|e: Ebb| #[trigger]
            start.is_ebb(e) ==> tracked_params(start, dfg, kind, dfg.value_type(param), e),
        forall|r: Repair| #[trigger]
            pending.contains(r) ==> tracked_repair(start, dfg, r) && start.is_ebb(r.ebb),
    ensures
        forall|r: Repair| #[trigger]
            pending.insert(repair_of(dfg, param, kind)).contains(r) ==> tracked_repair(
                start,
                split_param(dfg, param, kind),
                r,
            ),
{
    let after = split_param(dfg, param, kind);
    let added = repair_of(dfg, param, kind);
    let target = dfg.value(param)->ebb;
    assert(dfg.value_wf(param));
    lemma_split_param(dfg, param, kind);
    assert(start.is_ebb(target));
    lemma_tracked_params_split_param(start, dfg, param, kind, target);
    assert forall|r: Repair| #[trigger] pending.insert(added).contains(r) implies tracked_repair(
        start,
        after,
        r,
    ) by {
        if r == added {
        } else {
            assert(pending.contains(r));
            lemma_tracked_params_split_param(start, dfg, param, kind, r.ebb);
            let j = r.num as int;
            assert(dfg.ebb_params(r.ebb)[j] != start.ebb_params(r.ebb)[j]);
        }
    }
}

/// After a repair has written the two halves of its argument into a list,
/// the list is still as `tracked_args` says.
pub(crate) proof fn lemma_tracked_args_written(
    start: DfgView,
    dfg: DfgView,
    pending: Set<Repair>,
    kind: ConcatKind,
    ty: Type,
    r: Repair,
    fixed: int,
    old_args: Seq<Value>,
    args: Seq<Value>,
    lo: Value,
    hi: Value,
)
    requires
        start.wf(),
        dfg.wf(),
        grows(start, dfg),
        start.is_ebb(r.ebb),
        tracked_params(start, dfg, kind, ty, r.ebb),
        tracked_repair(start, dfg, r),
        tracked_args(start, dfg, pending, kind, ty, r.ebb, fixed, old_args, args),
        kind.spec_half_type(ty) == Some(r.split_type),
        r.num < r.hi_num,
        fixed + r.num < args.len(),
        dfg.value_type(args[fixed + r.num]) == ty,
        dfg.value_type(lo) == r.split_type,
        is_split(dfg, args[fixed + r.num], kind, (lo, hi)),
    ensures
        tracked_args(
            start,
            dfg,
            pending,
            kind,
            ty,
            r.ebb,
            fixed,
            old_args,
            repaired_args(args, fixed, r, lo, hi),
        ),
{
    let ebb = r.ebb;
    let old = start.ebb_params(ebb);
    let written = repaired_args(args, fixed, r, lo, hi);
    ty.lemma_half_differs();
    assert(tracked_slot(start, dfg, pending, kind, ty, ebb, fixed, old_args, args, r.num as int));
    assert(tracked_param(start, dfg, kind, ty, ebb, r.num as int));
    lemma_high_place(start, dfg, kind, ebb, r.num as int);
    assert(old.len() <= r.hi_num);
    assert forall|j: int| 0 <= j < old.len() implies #[trigger] tracked_slot(
        start,
        dfg,
        pending,
        kind,
        ty,
        ebb,
        fixed,
        old_args,
        written,
        j,
    ) by {
        assert(tracked_slot(start, dfg, pending, kind, ty, ebb, fixed, old_args, args, j));
        if j == r.num {
            assert(written[fixed + j] == lo);
            assert(written[fixed + r.hi_num] == hi);
        } else {
            assert(written[fixed + j] == args[fixed + j]);
            if dfg.ebb_params(ebb)[j] != old[j] {
                assert(tracked_param(start, dfg, kind, ty, ebb, j));
                lemma_high_place(start, dfg, kind, ebb, j);
                let h = high_place(dfg, old[j]);
                assert(dfg.ebb_params(ebb)[r.num as int] != old[r.num as int]);
                assert(h != r.hi_num);
                if fixed + h < args.len() {
                    assert(written[fixed + h] == args[fixed + h]);
                }
            }
        }
    }
}

/// When every predecessor of the block of the repair `r` is repaired, the
/// function is as `tracking` says without `r`.
pub(crate) proof fn lemma_tracking_done(
    start: DfgView,
    dfg: DfgView,
    cfg: Seq<Seq<(Ebb, Inst)>>,
    pending: Set<Repair>,
    rest: Set<Repair>,
    kind: ConcatKind,
    ty: Type,
    r: Repair,
)
    requires
        tracking(start, dfg, cfg, pending, kind, ty, None),
        kind.spec_half_type(ty) == Some(r.split_type),
        forall|x: Repair| rest.contains(x) ==> #[trigger] pending.contains(x),
        forall|x: Repair| #[trigger] pending.contains(x) ==> rest.contains(x) || x == r,
        forall|inst: Inst| #[trigger]
            is_pred(cfg, r.ebb, inst) ==> is_repaired(
                dfg,
                r,
                fixed_args(start, inst),
                dfg.inst(inst).args,
            ),
    ensures
        tracking(start, dfg, cfg, rest, kind, ty, None),
{
    ty.lemma_half_differs();
    assert forall|x: Repair| #[trigger] rest.contains(x) implies tracked_repair(start, dfg, x) by {
        assert(pending.contains(x));
    }
    assert forall|ebb: Ebb, inst: Inst| #[trigger] is_pred(cfg, ebb, inst) implies tracked_args(
        start,
        dfg,
        rest,
        kind,
        ty,
        ebb,
        fixed_args(start, inst),
        start.inst(inst).args,
        dfg.inst(inst).args,
    ) by {
        let fixed = fixed_args(start, inst);
        let old_args = start.inst(inst).args;
        let args = dfg.inst(inst).args;
        assert(tracked_args(start, dfg, pending, kind, ty, ebb, fixed, old_args, args));
        assert forall|j: int| 0 <= j < start.ebb_params(ebb).len() implies #[trigger] tracked_slot(
            start,
            dfg,
            rest,
            kind,
            ty,
            ebb,
            fixed,
            old_args,
            args,
            j,
        ) by {
            assert(tracked_slot(start, dfg, pending, kind, ty, ebb, fixed, old_args, args, j));
            if low_pending(pending, ebb, j) {
                let x = choose|x: Repair|
                    #[trigger] pending.contains(x) && x.ebb == ebb && x.num == j;
                if x == r {
                    assert(is_repaired(dfg, r, fixed, args));
                } else {
                    assert(rest.contains(x));
                }
            }
        }
    }
}

/// A function stays as `tracking` says, but for the branch `inst`, when the
/// operands of `inst` are replaced. It is as `tracking` says for `inst` too
/// when the new list is as `tracked_args` says.
pub(crate) proof fn lemma_tracking_set_args(
    start: DfgView,
    dfg: DfgView,
    start_layout: LayoutView,
    layout: LayoutView,
    cfg: Seq<Seq<(Ebb, Inst)>>,
    pending: Set<Repair>,
    kind: ConcatKind,
    ty: Type,
    skip: Option<Inst>,
    ebb: Ebb,
    inst: Inst,
    args: Seq<Value>,
)
    requires
        start.wf(),
        dfg.wf(),
        dfg.set_inst_args(inst, args).wf(),
        grows(start, dfg),
        edges_valid(start, start_layout, cfg),
        edges_valid(dfg, layout, cfg),
        is_pred(cfg, ebb, inst),
        skip is None || skip == Some(inst),
        tracking(start, dfg, cfg, pending, kind, ty, skip),
        forall|r: Repair| #[trigger] pending.contains(r) ==> start.is_ebb(r.ebb),
        forall|k: int| 0 <= k < args.len() ==> dfg.is_value(#[trigger] args[k]),
    ensures
        tracking(start, dfg.set_inst_args(inst, args), cfg, pending, kind, ty, Some(inst)),
        tracked_args(
            start,
            dfg,
            pending,
            kind,
            ty,
            ebb,
            fixed_args(start, inst),
            start.inst(inst).args,
            args,
        ) ==> tracking(start, dfg.set_inst_args(inst, args), cfg, pending, kind, ty, None),
{
    let after = dfg.set_inst_args(inst, args);
    lemma_set_args_grows(dfg, layout, cfg, ebb, inst, args);
    assert forall|e: Ebb| #[trigger] start.is_ebb(e) implies tracked_params(
        start,
        after,
        kind,
        ty,
        e,
    ) by {
        lemma_tracked_params_kept(start, dfg, after, kind, ty, e);
    }
    assert forall|r: Repair| #[trigger] pending.contains(r) implies tracked_repair(
        start,
        after,
        r,
    ) by {
        lemma_tracked_params_kept(start, dfg, after, kind, ty, r.ebb);
        assert(dfg.ebb_params(r.ebb)[r.num as int] != start.ebb_params(r.ebb)[r.num as int]);
    }
    assert forall|e: Ebb, i: Inst| #[trigger] is_pred(cfg, e, i) && i != inst implies tracked_args(
        start,
        after,
        pending,
        kind,
        ty,
        e,
        fixed_args(start, i),
        start.inst(i).args,
        after.inst(i).args,
    ) by {
        assert(start.is_inst(i));
        assert(start.inst_wf(i));
        assert(dfg.is_inst(i));
        assert(dfg.inst_wf(i));
        assert(start.is_ebb(e));
        lemma_tracked_args_kept(
            start,
            dfg,
            after,
            pending,
            pending,
            kind,
            ty,
            e,
            fixed_args(start, i),
            start.inst(i).args,
            dfg.inst(i).args,
        );
    }
    if tracked_args(
        start,
        dfg,
        pending,
        kind,
        ty,
        ebb,
        fixed_args(start, inst),
        start.inst(inst).args,
        args,
    ) {
        assert(start.is_inst(inst));
        assert(start.inst_wf(inst));
        assert(start.is_ebb(ebb));
        lemma_tracked_args_kept(
            start,
            dfg,
            after,
            pending,
            pending,
            kind,
            ty,
            ebb,
            fixed_args(start, inst),
            start.inst(inst).args,
            args,
        );
        assert forall|e: Ebb, i: Inst| #[trigger] is_pred(cfg, e, i) implies tracked_args(
            start,
            after,
            pending,
            kind,
            ty,
            e,
            fixed_args(start, i),
            start.inst(i).args,
            after.inst(i).args,
        ) by {
            if i == inst {
                assert(dfg.is_inst(inst));
                assert(e == ebb);
            }
        }
    }
}

/// A list stays as `tracked_args` says when a value of type `ty` is split.
pub(crate) proof fn lemma_tracked_args_split(
    start: DfgView,
    dfg: DfgView,
    layout: LayoutView,
    value: Value,
    kind: ConcatKind,
    pending: Set<Repair>,
    ebb: Ebb,
    fixed: int,
    old_args: Seq<Value>,
    args: Seq<Value>,
)
    requires
        start.wf(),
        function_wf(dfg, layout),
        dfg.is_value(value),
        kind.spec_half_type(dfg.value_type(value)) is Some,
        concats_typed(dfg),
        split_graph(dfg, layout, value, kind).wf(),
        grows(start, dfg),
        start.is_ebb(ebb),
        tracked_params(start, dfg, kind, dfg.value_type(value), ebb),
        tracked_args(
            start,
            dfg,
            pending,
            kind,
            dfg.value_type(value),
            ebb,
            fixed,
            old_args,
            args,
        ),
        args_consistent(start, ebb, fixed, old_args),
        forall|k: int| 0 <= k < old_args.len() ==> start.is_value(#[trigger] old_args[k]),
        forall|k: int| 0 <= k < args.len() ==> dfg.is_value(#[trigger] args[k]),
    ensures
        tracked_args(
            start,
            split_graph(dfg, layout, value, kind),
            split_pending(dfg, layout, value, kind, pending),
            kind,
            dfg.value_type(value),
            ebb,
            fixed,
            old_args,
            args,
        ),
{
    let after = split_graph(dfg, layout, value, kind);
    let ty = dfg.value_type(value);
    let v = dfg.resolve(value);
    dfg.lemma_resolve(value);
    lemma_split_graph(dfg, layout, value, kind);
    match split_case(dfg, layout, value, kind) {
        SplitCase::Reuse(_, _) => {},
        SplitCase::Param(_, _) => {
            lemma_tracked_args_split_param(
                start,
                dfg,
                v,
                kind,
                pending,
                ebb,
                fixed,
                old_args,
                args,
            );
        },
        SplitCase::Generic => {
            lemma_tracked_args_kept(
                start,
                dfg,
                after,
                pending,
                pending,
                kind,
                ty,
                ebb,
                fixed,
                old_args,
                args,
            );
        },
    }
}

/// A function stays as `tracking` says when a value of type `ty` is split.
pub(crate) proof fn lemma_tracking_split(
    start: DfgView,
    dfg: DfgView,
    start_layout: LayoutView,
    layout: LayoutView,
    cfg: Seq<Seq<(Ebb, Inst)>>,
    value: Value,
    kind: ConcatKind,
    pending: Set<Repair>,
    skip: Option<Inst>,
)
    requires
        start.wf(),
        function_wf(dfg, layout),
        dfg.is_value(value),
        kind.spec_half_type(dfg.value_type(value)) is Some,
        concats_typed(dfg),
        split_graph(dfg, layout, value, kind).wf(),
        grows(start, dfg),
        edges_valid(start, start_layout, cfg),
        edges_valid(dfg, layout, cfg),
        edges_consistent(start, cfg),
        tracking(start, dfg, cfg, pending, kind, dfg.value_type(value), skip),
        forall|r: Repair| #[trigger] pending.contains(r) ==> start.is_ebb(r.ebb),
    ensures
        tracking(
            start,
            split_graph(dfg, layout, value, kind),
            cfg,
            split_pending(dfg, layout, value, kind, pending),
            kind,
            dfg.value_type(value),
            skip,
        ),
{
    let after = split_graph(dfg, layout, value, kind);
    let more = split_pending(dfg, layout, value, kind, pending);
    let ty = dfg.value_type(value);
    let v = dfg.resolve(value);
    dfg.lemma_resolve(value);
    lemma_split_graph(dfg, layout, value, kind);
    assert forall|e: Ebb| #[trigger] start.is_ebb(e) implies tracked_params(
        start,
        after,
        kind,
        ty,
        e,
    ) by {
        match split_case(dfg, layout, value, kind) {
            SplitCase::Reuse(_, _) => {},
            SplitCase::Param(_, _) => {
                lemma_tracked_params_split_param(start, dfg, v, kind, e);
            },
            SplitCase::Generic => {
                lemma_tracked_params_kept(start, dfg, after, kind, ty, e);
            },
        }
    }
    match split_case(dfg, layout, value, kind) {
        SplitCase::Reuse(_, _) => {},
        SplitCase::Param(_, _) => {
            lemma_tracked_repairs_split_param(start, dfg, v, kind, pending);
        },
        SplitCase::Generic => {
            assert forall|r: Repair| #[trigger] more.contains(r) implies tracked_repair(
                start,
                after,
                r,
            ) by {
                lemma_tracked_params_kept(start, dfg, after, kind, ty, r.ebb);
                assert(dfg.ebb_params(r.ebb)[r.num as int] != start.ebb_params(
                    r.ebb,
                )[r.num as int]);
            }
        },
    }
    assert forall|ebb: Ebb, inst: Inst| #[trigger]
        is_pred(cfg, ebb, inst) && skip != Some(inst) implies tracked_args(
        start,
        after,
        more,
        kind,
        ty,
        ebb,
        fixed_args(start, inst),
        start.inst(inst).args,
        after.inst(inst).args,
    ) by {
        assert(start.is_inst(inst));
        assert(start.inst_wf(inst));
        assert(dfg.is_inst(inst));
        assert(dfg.inst_wf(inst));
        assert(after.inst(inst) == dfg.inst(inst));
        assert(start.is_ebb(ebb));
        lemma_tracked_args_split(
            start,
            dfg,
            layout,
            value,
            kind,
            pending,
            ebb,
            fixed_args(start, inst),
            start.inst(inst).args,
            dfg.inst(inst).args,
        );
    }
}

/// When the repairs are done and exactly one parameter of a block was
/// split, the block has gained exactly one parameter: the low half is at
/// the place of the parameter that was split and the high half is the new
/// last parameter. Every predecessor of the block passes the halves of the
/// argument it passed before at these two places, and the arguments it
/// passed before at the other places.
pub(crate) proof fn lemma_parameter_growth(
    start: DfgView,
    dfg: DfgView,
    cfg: Seq<Seq<(Ebb, Inst)>>,
    kind: ConcatKind,
    ty: Type,
    ebb: Ebb,
    num: int,
    inst: Inst,
)
    requires
        start.wf(),
        dfg.wf(),
        grows(start, dfg),
        start.is_ebb(ebb),
        tracking(start, dfg, cfg, Set::empty(), kind, ty, None),
        0 <= num < start.ebb_params(ebb).len(),
        dfg.ebb_params(ebb)[num] != start.ebb_params(ebb)[num],
        forall|j: int|
            0 <= j < start.ebb_params(ebb).len() && j != num ==> (#[trigger] dfg.ebb_params(
                ebb,
            )[j]) == start.ebb_params(ebb)[j],
        is_pred(cfg, ebb, inst),
    ensures
        dfg.ebb_params(ebb).len() == start.ebb_params(ebb).len() + 1,
        param_split(start, dfg, kind, ebb, num),
        dfg.ebb_params(ebb)[start.ebb_params(ebb).len() as int] == dfg.inst(
            dfg.value(dfg.resolve(start.ebb_params(ebb)[num]))->inst,
        ).args[1],
        is_split(
            dfg,
            start.ebb_params(ebb)[num],
            kind,
            (dfg.ebb_params(ebb)[num], dfg.ebb_params(ebb)[start.ebb_params(ebb).len() as int]),
        ),
        ({
            let fixed = fixed_args(start, inst);
            let old_args = start.inst(inst).args;
            let args = dfg.inst(inst).args;
            let hi_num = start.ebb_params(ebb).len() as int;
            &&& old_args.len() == fixed + hi_num
            &&& fixed + hi_num < args.len()
            &&& is_split(
                dfg,
                old_args[fixed + num],
                kind,
                (args[fixed + num], args[fixed + hi_num]),
            )
            &&& forall|j: int|
                0 <= j < hi_num && j != num ==> args[fixed + j] == #[trigger] old_args[fixed + j]
        }),
{
    let old = start.ebb_params(ebb);
    let params = dfg.ebb_params(ebb);
    let n0 = old.len() as int;
    assert(tracked_params(start, dfg, kind, ty, ebb));
    assert(tracked_param(start, dfg, kind, ty, ebb, num));
    lemma_high_place(start, dfg, kind, ebb, num);
    let h = high_place(dfg, old[num]);
    // Every parameter that was added is the high half of the one parameter that was
    // split.
    assert(h == n0) by {
        assert(added_for_split(start, dfg, ebb, n0));
        let j = choose|j: int|
            0 <= j < old.len() && (#[trigger] params[j]) != old[j] && high_place(dfg, old[j])
                == n0;
        assert(j == num);
    }
    assert(params.len() == n0 + 1) by {
        if params.len() > n0 + 1 {
            assert(added_for_split(start, dfg, ebb, n0 + 1));
            let j = choose|j: int|
                0 <= j < old.len() && (#[trigger] params[j]) != old[j] && high_place(
                    dfg,
                    old[j],
                ) == n0 + 1;
            assert(j == num);
        }
    }
    let fixed = fixed_args(start, inst);
    let old_args = start.inst(inst).args;
    let args = dfg.inst(inst).args;
    assert(tracked_args(start, dfg, Set::empty(), kind, ty, ebb, fixed, old_args, args));
    assert(tracked_slot(start, dfg, Set::empty(), kind, ty, ebb, fixed, old_args, args, num));
    assert forall|j: int| 0 <= j < n0 && j != num implies args[fixed + j]
        == #[trigger] old_args[fixed + j] by {
        assert(tracked_slot(start, dfg, Set::empty(), kind, ty, ebb, fixed, old_args, args, j));
        assert(params[j] == old[j]);
    }
}

} // verus!
