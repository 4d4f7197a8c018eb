//! The state of a function while the predecessors of split block parameters
//! are repaired.
//!
//! Splitting a parameter leaves every predecessor of its block inconsistent
//! until the predecessor is repaired. `repairing` is what holds in between:
//! every difference between a branch and its destination is covered by a
//! repair that is still due. With no repair left, the function is
//! consistent again.

use crate::ir::dfg::DfgView;
use crate::ir::entities::{Ebb, Inst, Value};
use crate::ir::layout::LayoutView;
use crate::ir::types::Type;
use crate::legalizer::consistency::{
    args_consistent, concats_typed, edges_consistent, edges_valid, fixed_args, function_wf,
    is_pred, keeps_types, lemma_set_args_grows, lemma_split_graph, lemma_split_param,
};
use crate::legalizer::split::{split_case, split_graph, split_param, ConcatKind, Repair, SplitCase};
use vstd::prelude::*;

verus! {

/// The repair `r` is one of splitting parameters of type `ty` in the way
/// `kind`, and its block has the two parameters for the halves.
pub open spec fn repair_ok(dfg: DfgView, r: Repair, kind: ConcatKind, ty: Type) -> bool {
    let params = dfg.ebb_params(r.ebb);
    &&& r.concat == kind
    &&& kind.spec_half_type(ty) == Some(r.split_type)
    &&& dfg.is_ebb(r.ebb)
    &&& r.num < r.hi_num < params.len()
    &&& dfg.value_type(params[r.num as int]) == r.split_type
    &&& dfg.value_type(params[r.hi_num as int]) == r.split_type
}

/// Every repair that is due is as `repair_ok` says, no two of them are for
/// the same parameter of the same block, and none is for a parameter that
/// holds the high half of another.
pub open spec fn repairs_ok(
    dfg: DfgView,
    pending: Set<Repair>,
    kind: ConcatKind,
    ty: Type,
) -> bool {
    &&& forall|r: Repair| #[trigger] pending.contains(r) ==> repair_ok(dfg, r, kind, ty)
    &&& forall|r1: Repair, r2: Repair|
        #[trigger] pending.contains(r1) && #[trigger] pending.contains(r2) && r1.ebb == r2.ebb
            ==> r1.num != r2.hi_num && (r1.num == r2.num <==> r1.hi_num == r2.hi_num)
}

/// A repair is due for the parameter `j` of `ebb`.
pub open spec fn low_pending(pending: Set<Repair>, ebb: Ebb, j: int) -> bool {
    exists|r: Repair| #[trigger] pending.contains(r) && r.ebb == ebb && r.num == j
}

/// A repair is due that will give the list `args` the argument for the
/// parameter `j` of `ebb`: `j` is the place of its high half, and the list
/// still holds the whole value of type `ty` at the place of its low half.
pub open spec fn high_pending(
    dfg: DfgView,
    pending: Set<Repair>,
    ebb: Ebb,
    fixed: int,
    args: Seq<Value>,
    j: int,
    ty: Type,
) -> bool {
    exists|r: Repair|
        #[trigger] pending.contains(r) && r.ebb == ebb && r.hi_num == j && fixed + r.num
            < args.len() && dfg.value_type(args[fixed + r.num]) == ty
}

/// The argument for the parameter `j` of `ebb` in `args` has the type of the
/// parameter, or it is a whole value of type `ty` and a repair is due for
/// the parameter.
pub open spec fn slot_ok(
    dfg: DfgView,
    pending: Set<Repair>,
    ebb: Ebb,
    fixed: int,
    args: Seq<Value>,
    j: int,
    ty: Type,
) -> bool {
    let t = dfg.value_type(args[fixed + j]);
    t == dfg.value_type(dfg.ebb_params(ebb)[j]) || (t == ty && low_pending(pending, ebb, j))
}

/// The list `args` of a branch to `ebb`, with `fixed` operands before the
/// block arguments, differs from the parameters of `ebb` only where a repair
/// is due: an argument has the type of its parameter or is a whole value
/// whose parameter was split, and an argument that is missing at the end is
/// the high half of such a value. Every repair that is due for `ebb` finds
/// its argument in the list.
pub open spec fn args_repairing(
    dfg: DfgView,
    pending: Set<Repair>,
    ebb: Ebb,
    fixed: int,
    args: Seq<Value>,
    ty: Type,
) -> bool {
    let params = dfg.ebb_params(ebb);
    let m = args.len() - fixed;
    &&& 0 <= fixed
    &&& 0 <= m <= params.len()
    &&& forall|k: int| 0 <= k < args.len() ==> dfg.is_value(#[trigger] args[k])
    &&& forall|j: int| 0 <= j < m ==> #[trigger] slot_ok(dfg, pending, ebb, fixed, args, j, ty)
    &&& forall|j: int|
        m <= j < params.len() ==> #[trigger] high_pending(dfg, pending, ebb, fixed, args, j, ty)
    &&& forall|r: Repair| #[trigger] pending.contains(r) && r.ebb == ebb ==> r.num < m
}

/// The state of a function while the repairs `pending` are due, after
/// parameters of type `ty` were split in the way `kind`: the repairs are as
/// `repairs_ok` says, and every predecessor of every block, except the
/// branch `skip` whose list is taken out, is as `args_repairing` says.
pub open spec fn repairing(
    dfg: DfgView,
    cfg: Seq<Seq<(Ebb, Inst)>>,
    pending: Set<Repair>,
    kind: ConcatKind,
    ty: Type,
    skip: Option<Inst>,
) -> bool {
    &&& repairs_ok(dfg, pending, kind, ty)
    &&& forall|ebb: Ebb, inst: Inst| #[trigger]
        is_pred(cfg, ebb, inst) && skip != Some(inst) ==> args_repairing(
            dfg,
            pending,
            ebb,
            fixed_args(dfg, inst),
            dfg.inst(inst).args,
            ty,
        )
}

/// The repair that splitting the parameter `param` in the way `kind` adds.
pub open spec fn repair_of(dfg: DfgView, param: Value, kind: ConcatKind) -> Repair {
    Repair {
        concat: kind,
        split_type: kind.spec_half_type(dfg.value_type(param))->0,
        ebb: dfg.value(param)->ebb,
        num: dfg.value(param)->Param_num,
        hi_num: dfg.ebb_params(dfg.value(param)->ebb).len() as usize,
    }
}

/// The repairs that are due after `value` was split: one more where a
/// parameter was split.
pub open spec fn split_pending(
    dfg: DfgView,
    layout: LayoutView,
    value: Value,
    kind: ConcatKind,
    pending: Set<Repair>,
) -> Set<Repair> {
    match split_case(dfg, layout, value, kind) {
        SplitCase::Param(_, _) => pending.insert(repair_of(dfg, dfg.resolve(value), kind)),
        _ => pending,
    }
}

/// The list `args` after the repair `r` has written the halves `lo` and `hi`
/// of its argument: `lo` is where the whole value was, and `hi` is at the
/// place of the new parameter. Where the list was too short for that, it is
/// lengthened, with `hi` also at the places before, which other repairs
/// that are due will write.
pub open spec fn repaired_args(
    args: Seq<Value>,
    fixed: int,
    r: Repair,
    lo: Value,
    hi: Value,
) -> Seq<Value> {
    let with_lo = args.update(fixed + r.num, lo);
    if fixed + r.hi_num < args.len() {
        with_lo.update(fixed + r.hi_num, hi)
    } else {
        with_lo + Seq::new((fixed + r.hi_num + 1 - args.len()) as nat, |k: int| hi)
    }
}

/// The list `args` holds the two halves that the repair `r` is to write.
pub open spec fn is_repaired(dfg: DfgView, r: Repair, fixed: int, args: Seq<Value>) -> bool {
    &&& 0 <= fixed
    &&& fixed + r.hi_num < args.len()
    &&& dfg.value_type(args[fixed + r.num]) == r.split_type
}

/// With no repair due, a list is as `args_repairing` says exactly when it
/// is consistent with the block.
pub(crate) proof fn lemma_args_repairing_none(
    dfg: DfgView,
    ebb: Ebb,
    fixed: int,
    args: Seq<Value>,
    ty: Type,
)
    requires
        0 <= fixed <= args.len(),
        forall|k: int| 0 <= k < args.len() ==> dfg.is_value(#[trigger] args[k]),
    ensures
        args_repairing(dfg, Set::empty(), ebb, fixed, args, ty) <==> args_consistent(
            dfg,
            ebb,
            fixed,
            args,
        ),
{
    let pending = Set::<Repair>::empty();
    let params = dfg.ebb_params(ebb);
    let m = args.len() - fixed;
    if args_repairing(dfg, pending, ebb, fixed, args, ty) {
        if m < params.len() {
            assert(high_pending(dfg, pending, ebb, fixed, args, m, ty));
        }
        assert forall|j: int| 0 <= j < params.len() implies dfg.value_type(args[fixed + j])
            == dfg.value_type(#[trigger] params[j]) by {
            assert(slot_ok(dfg, pending, ebb, fixed, args, j, ty));
        }
    }
    if args_consistent(dfg, ebb, fixed, args) {
        assert forall|j: int| 0 <= j < m implies #[trigger] slot_ok(
            dfg,
            pending,
            ebb,
            fixed,
            args,
            j,
            ty,
        ) by {
            assert(dfg.value_type(args[fixed + j]) == dfg.value_type(params[j]));
        }
    }
}

/// With no repair due, a consistent function is as `repairing` says.
pub(crate) proof fn lemma_repairing_none(
    dfg: DfgView,
    layout: LayoutView,
    cfg: Seq<Seq<(Ebb, Inst)>>,
    kind: ConcatKind,
    ty: Type,
)
    requires
        dfg.wf(),
        edges_valid(dfg, layout, cfg),
        edges_consistent(dfg, cfg),
    ensures
        repairing(dfg, cfg, Set::empty(), kind, ty, None),
{
    assert forall|ebb: Ebb, inst: Inst| #[trigger] is_pred(cfg, ebb, inst) implies args_repairing(
        dfg,
        Set::empty(),
        ebb,
        fixed_args(dfg, inst),
        dfg.inst(inst).args,
        ty,
    ) by {
        assert(dfg.inst_wf(inst));
        assert(args_consistent(dfg, ebb, fixed_args(dfg, inst), dfg.inst(inst).args));
        lemma_args_repairing_none(dfg, ebb, fixed_args(dfg, inst), dfg.inst(inst).args, ty);
    }
}

/// With no repair due, a function that is as `repairing` says is consistent.
pub(crate) proof fn lemma_repairing_finished(
    dfg: DfgView,
    layout: LayoutView,
    cfg: Seq<Seq<(Ebb, Inst)>>,
    kind: ConcatKind,
    ty: Type,
)
    requires
        dfg.wf(),
        edges_valid(dfg, layout, cfg),
        repairing(dfg, cfg, Set::empty(), kind, ty, None),
    ensures
        edges_consistent(dfg, cfg),
{
    assert forall|ebb: Ebb, inst: Inst| #[trigger] is_pred(cfg, ebb, inst) implies args_consistent(
        dfg,
        ebb,
        fixed_args(dfg, inst),
        dfg.inst(inst).args,
    ) by {
        assert(dfg.inst_wf(inst));
        lemma_args_repairing_none(dfg, ebb, fixed_args(dfg, inst), dfg.inst(inst).args, ty);
    }
}

/// A list stays as `args_repairing` says when the graph changes but keeps
/// the types of its values and the parameters of the block, and repairs are
/// added for other blocks only.
pub(crate) proof fn lemma_args_repairing_kept(
    before: DfgView,
    after: DfgView,
    pending: Set<Repair>,
    more: Set<Repair>,
    ebb: Ebb,
    fixed: int,
    args: Seq<Value>,
    ty: Type,
)
    requires
        before.wf(),
        before.is_ebb(ebb),
        args_repairing(before, pending, ebb, fixed, args, ty),
        keeps_types(before, after),
        after.ebb_params(ebb) == before.ebb_params(ebb),
        forall|r: Repair| pending.contains(r) ==> #[trigger] more.contains(r),
        forall|r: Repair| #[trigger] more.contains(r) && !pending.contains(r) ==> r.ebb != ebb,
    ensures
        args_repairing(after, more, ebb, fixed, args, ty),
{
    let params = before.ebb_params(ebb);
    let m = args.len() - fixed;
    assert(before.ebb_wf(ebb));
    assert forall|j: int| 0 <= j < m implies #[trigger] slot_ok(
        after,
        more,
        ebb,
        fixed,
        args,
        j,
        ty,
    ) by {
        assert(slot_ok(before, pending, ebb, fixed, args, j, ty));
        assert(before.is_value(args[fixed + j]));
        assert(before.is_value(params[j]));
        if low_pending(pending, ebb, j) {
            let r = choose|r: Repair| #[trigger] pending.contains(r) && r.ebb == ebb && r.num == j;
            assert(more.contains(r));
        }
    }
    assert forall|j: int| m <= j < params.len() implies #[trigger] high_pending(
        after,
        more,
        ebb,
        fixed,
        args,
        j,
        ty,
    ) by {
        assert(high_pending(before, pending, ebb, fixed, args, j, ty));
        let r = choose|r: Repair|
            #[trigger] pending.contains(r) && r.ebb == ebb && r.hi_num == j && fixed + r.num
                < args.len() && before.value_type(args[fixed + r.num]) == ty;
        assert(more.contains(r));
        assert(before.is_value(args[fixed + r.num]));
    }
    assert forall|k: int| 0 <= k < args.len() implies after.is_value(#[trigger] args[k]) by {
        assert(before.is_value(args[k]));
    }
}

/// The repairs that are due stay as `repairs_ok` says when a parameter of
/// type `ty` is split and its repair is added.
pub(crate) proof fn lemma_repairs_ok_split_param(
    dfg: DfgView,
    param: Value,
    kind: ConcatKind,
    pending: Set<Repair>,
)
    requires
        dfg.wf(),
        dfg.is_value(param),
        dfg.value(param) is Param,
        kind.spec_half_type(dfg.value_type(param)) is Some,
        split_param(dfg, param, kind).wf(),
        repairs_ok(dfg, pending, kind, dfg.value_type(param)),
    ensures
        repairs_ok(
            split_param(dfg, param, kind),
            pending.insert(repair_of(dfg, param, kind)),
            kind,
            dfg.value_type(param),
        ),
{
    let after = split_param(dfg, param, kind);
    let ty = dfg.value_type(param);
    let added = repair_of(dfg, param, kind);
    let more = pending.insert(added);
    let ebb = dfg.value(param)->ebb;
    lemma_split_param(dfg, param, kind);
    ty.lemma_half_differs();
    assert(dfg.value_wf(param));
    assert(dfg.ebb_wf(ebb));
    assert(after.ebb_wf(ebb));
    assert(after.ebb_params(ebb)[dfg.ebb_params(ebb).len() as int] == Value(
        (dfg.values.len() + 1) as usize,
    ));
    assert forall|r: Repair| #[trigger] more.contains(r) implies repair_ok(after, r, kind, ty) by {
        if r != added {
            assert(pending.contains(r));
            assert(repair_ok(dfg, r, kind, ty));
            assert(dfg.ebb_wf(r.ebb));
            assert(dfg.is_value(dfg.ebb_params(r.ebb)[r.num as int]));
            assert(dfg.is_value(dfg.ebb_params(r.ebb)[r.hi_num as int]));
        }
    }
    assert forall|r1: Repair, r2: Repair|
        #[trigger] more.contains(r1) && #[trigger] more.contains(r2) && r1.ebb
            == r2.ebb implies r1.num != r2.hi_num && (r1.num == r2.num <==> r1.hi_num
        == r2.hi_num) by {
        if r1 != added {
            assert(pending.contains(r1));
            assert(repair_ok(dfg, r1, kind, ty));
        }
        if r2 != added {
            assert(pending.contains(r2));
            assert(repair_ok(dfg, r2, kind, ty));
        }
    }
}

/// A list stays as `args_repairing` says when a parameter of type `ty` is
/// split and its repair is added.
pub(crate) proof fn lemma_args_repairing_split_param(
    dfg: DfgView,
    param: Value,
    kind: ConcatKind,
    pending: Set<Repair>,
    ebb: Ebb,
    fixed: int,
    args: Seq<Value>,
)
    requires
        dfg.wf(),
        dfg.is_value(param),
        dfg.value(param) is Param,
        kind.spec_half_type(dfg.value_type(param)) is Some,
        split_param(dfg, param, kind).wf(),
        repairs_ok(dfg, pending, kind, dfg.value_type(param)),
        dfg.is_ebb(ebb),
        args_repairing(dfg, pending, ebb, fixed, args, dfg.value_type(param)),
    ensures
        args_repairing(
            split_param(dfg, param, kind),
            pending.insert(repair_of(dfg, param, kind)),
            ebb,
            fixed,
            args,
            dfg.value_type(param),
        ),
{
    let after = split_param(dfg, param, kind);
    let ty = dfg.value_type(param);
    let added = repair_of(dfg, param, kind);
    let more = pending.insert(added);
    let target = dfg.value(param)->ebb;
    let num = dfg.value(param)->Param_num as int;
    lemma_split_param(dfg, param, kind);
    ty.lemma_half_differs();
    assert(dfg.value_wf(param));
    if ebb != target {
        lemma_args_repairing_kept(dfg, after, pending, more, ebb, fixed, args, ty);
    } else {
        let params = dfg.ebb_params(ebb);
        let m = args.len() - fixed;
        let n = params.len() as int;
        assert(dfg.ebb_wf(ebb));
        assert(after.ebb_params(ebb)[n] == Value((dfg.values.len() + 1) as usize));
        // The argument for the parameter is in the list: a missing argument belongs to a
        // parameter of the half type.
        if m <= num {
            assert(high_pending(dfg, pending, ebb, fixed, args, num, ty));
            let r = choose|r: Repair|
                #[trigger] pending.contains(r) && r.ebb == ebb && r.hi_num == num && fixed + r.num
                    < args.len() && dfg.value_type(args[fixed + r.num]) == ty;
            assert(repair_ok(dfg, r, kind, ty));
            assert(false);
        }
        assert(slot_ok(dfg, pending, ebb, fixed, args, num, ty));
        assert(dfg.value_type(args[fixed + num]) == ty);
        assert(dfg.is_value(args[fixed + num]));
        assert(more.contains(added));
        assert forall|j: int| 0 <= j < m implies #[trigger] slot_ok(
            after,
            more,
            ebb,
            fixed,
            args,
            j,
            ty,
        ) by {
            assert(slot_ok(dfg, pending, ebb, fixed, args, j, ty));
            assert(dfg.is_value(args[fixed + j]));
            assert(dfg.is_value(params[j]));
            if j == num {
                assert(low_pending(more, ebb, j));
            } else if low_pending(pending, ebb, j) {
                let r = choose|r: Repair|
                    #[trigger] pending.contains(r) && r.ebb == ebb && r.num == j;
                assert(more.contains(r));
            }
        }
        assert forall|j: int| m <= j < after.ebb_params(ebb).len() implies #[trigger] high_pending(
            after,
            more,
            ebb,
            fixed,
            args,
            j,
            ty,
        ) by {
            if j < n {
                assert(high_pending(dfg, pending, ebb, fixed, args, j, ty));
                let r = choose|r: Repair|
                    #[trigger] pending.contains(r) && r.ebb == ebb && r.hi_num == j && fixed
                        + r.num < args.len() && dfg.value_type(args[fixed + r.num]) == ty;
                assert(more.contains(r));
                assert(dfg.is_value(args[fixed + r.num]));
            } else {
                assert(added.hi_num == j);
                assert(after.value_type(args[fixed + added.num]) == ty);
            }
        }
        assert forall|k: int| 0 <= k < args.len() implies after.is_value(#[trigger] args[k]) by {
            assert(dfg.is_value(args[k]));
        }
    }
}

/// A list stays as `args_repairing` says when a value of type `ty` is split.
pub(crate) proof fn lemma_args_repairing_split(
    dfg: DfgView,
    layout: LayoutView,
    value: Value,
    kind: ConcatKind,
    pending: Set<Repair>,
    ebb: Ebb,
    fixed: int,
    args: Seq<Value>,
)
    requires
        function_wf(dfg, layout),
        dfg.is_value(value),
        kind.spec_half_type(dfg.value_type(value)) is Some,
        concats_typed(dfg),
        split_graph(dfg, layout, value, kind).wf(),
        repairs_ok(dfg, pending, kind, dfg.value_type(value)),
        dfg.is_ebb(ebb),
        args_repairing(dfg, pending, ebb, fixed, args, dfg.value_type(value)),
    ensures
        args_repairing(
            split_graph(dfg, layout, value, kind),
            split_pending(dfg, layout, value, kind, pending),
            ebb,
            fixed,
            args,
            dfg.value_type(value),
        ),
{
    let after = split_graph(dfg, layout, value, kind);
    let ty = dfg.value_type(value);
    let v = dfg.resolve(value);
    dfg.lemma_resolve(value);
    lemma_split_graph(dfg, layout, value, kind);
    match split_case(dfg, layout, value, kind) {
        SplitCase::Reuse(_, _) => {},
        SplitCase::Param(_, _) => {
            lemma_args_repairing_split_param(dfg, v, kind, pending, ebb, fixed, args);
        },
        SplitCase::Generic => {
            lemma_args_repairing_kept(dfg, after, pending, pending, ebb, fixed, args, ty);
        },
    }
}

/// A function stays as `repairing` says when a value of type `ty` is split.
pub(crate) proof fn lemma_repairing_split(
    dfg: DfgView,
    layout: LayoutView,
    cfg: Seq<Seq<(Ebb, Inst)>>,
    value: Value,
    kind: ConcatKind,
    pending: Set<Repair>,
    skip: Option<Inst>,
)
    requires
        function_wf(dfg, layout),
        dfg.is_value(value),
        kind.spec_half_type(dfg.value_type(value)) is Some,
        concats_typed(dfg),
        split_graph(dfg, layout, value, kind).wf(),
        edges_valid(dfg, layout, cfg),
        repairing(dfg, cfg, pending, kind, dfg.value_type(value), skip),
    ensures
        repairing(
            split_graph(dfg, layout, value, kind),
            cfg,
            split_pending(dfg, layout, value, kind, pending),
            kind,
            dfg.value_type(value),
            skip,
        ),
{
    let after = split_graph(dfg, layout, value, kind);
    let more = split_pending(dfg, layout, value, kind, pending);
    let ty = dfg.value_type(value);
    let v = dfg.resolve(value);
    dfg.lemma_resolve(value);
    lemma_split_graph(dfg, layout, value, kind);
    match split_case(dfg, layout, value, kind) {
        SplitCase::Reuse(_, _) => {},
        SplitCase::Param(_, _) => {
            lemma_repairs_ok_split_param(dfg, v, kind, pending);
        },
        SplitCase::Generic => {
            assert forall|r: Repair| #[trigger] more.contains(r) implies repair_ok(
                after,
                r,
                kind,
                ty,
            ) by {
                assert(repair_ok(dfg, r, kind, ty));
                assert(dfg.ebb_wf(r.ebb));
                assert(dfg.is_value(dfg.ebb_params(r.ebb)[r.num as int]));
                assert(dfg.is_value(dfg.ebb_params(r.ebb)[r.hi_num as int]));
            }
        },
    }
    assert forall|ebb: Ebb, inst: Inst| #[trigger]
        is_pred(cfg, ebb, inst) && skip != Some(inst) implies args_repairing(
        after,
        more,
        ebb,
        fixed_args(after, inst),
        after.inst(inst).args,
        ty,
    ) by {
        assert(dfg.is_inst(inst));
        assert(dfg.inst_wf(inst));
        assert(after.inst(inst) == dfg.inst(inst));
        lemma_args_repairing_split(
            dfg,
            layout,
            value,
            kind,
            pending,
            ebb,
            fixed_args(dfg, inst),
            dfg.inst(inst).args,
        );
    }
}

/// After a repair has written the two halves of its argument into a list,
/// the list is still as `args_repairing` says, and is repaired.
pub(crate) proof fn lemma_args_repairing_written(
    dfg: DfgView,
    pending: Set<Repair>,
    kind: ConcatKind,
    ty: Type,
    r: Repair,
    fixed: int,
    args: Seq<Value>,
    lo: Value,
    hi: Value,
)
    requires
        dfg.wf(),
        repairs_ok(dfg, pending, kind, ty),
        pending.contains(r),
        args_repairing(dfg, pending, r.ebb, fixed, args, ty),
        dfg.is_value(lo),
        dfg.is_value(hi),
        dfg.value_type(lo) == r.split_type,
        dfg.value_type(hi) == r.split_type,
    ensures
        args_repairing(dfg, pending, r.ebb, fixed, repaired_args(args, fixed, r, lo, hi), ty),
        is_repaired(dfg, r, fixed, repaired_args(args, fixed, r, lo, hi)),
{
    let ebb = r.ebb;
    let params = dfg.ebb_params(ebb);
    let m = args.len() - fixed;
    let written = repaired_args(args, fixed, r, lo, hi);
    let wm = written.len() - fixed;
    let half = r.split_type;
    ty.lemma_half_differs();
    assert(repair_ok(dfg, r, kind, ty));
    assert(r.num < m);
    assert forall|k: int| 0 <= k < written.len() implies dfg.is_value(#[trigger] written[k]) by {
        if k < args.len() {
            assert(dfg.is_value(args[k]));
        }
    }
    assert forall|j: int| 0 <= j < wm implies #[trigger] slot_ok(
        dfg,
        pending,
        ebb,
        fixed,
        written,
        j,
        ty,
    ) by {
        if j == r.num || j == r.hi_num {
        } else if j < m {
            assert(slot_ok(dfg, pending, ebb, fixed, args, j, ty));
            assert(written[fixed + j] == args[fixed + j]);
        } else {
            // A place that was lengthened holds `hi`, and belongs to a parameter of the
            // half type.
            assert(written[fixed + j] == hi);
            assert(high_pending(dfg, pending, ebb, fixed, args, j, ty));
            let other = choose|other: Repair|
                #[trigger] pending.contains(other) && other.ebb == ebb && other.hi_num == j
                    && fixed + other.num < args.len() && dfg.value_type(args[fixed + other.num])
                    == ty;
            assert(repair_ok(dfg, other, kind, ty));
        }
    }
    assert forall|j: int| wm <= j < params.len() implies #[trigger] high_pending(
        dfg,
        pending,
        ebb,
        fixed,
        written,
        j,
        ty,
    ) by {
        assert(high_pending(dfg, pending, ebb, fixed, args, j, ty));
        let other = choose|other: Repair|
            #[trigger] pending.contains(other) && other.ebb == ebb && other.hi_num == j && fixed
                + other.num < args.len() && dfg.value_type(args[fixed + other.num]) == ty;
        assert(repair_ok(dfg, other, kind, ty));
        // Another repair, for another parameter: its argument is untouched.
        assert(other.num != r.num);
        assert(other.num < m);
        assert(other.num != r.hi_num);
        assert(written[fixed + other.num] == args[fixed + other.num]);
    }
}

/// A function stays as `repairing` says, but for the branch `inst`, when the
/// operands of `inst` are replaced. It is as `repairing` says for `inst` too
/// when the new list is as `args_repairing` says.
pub(crate) proof fn lemma_repairing_set_args(
    dfg: DfgView,
    layout: LayoutView,
    cfg: Seq<Seq<(Ebb, Inst)>>,
    pending: Set<Repair>,
    kind: ConcatKind,
    ty: Type,
    skip: Option<Inst>,
    ebb: Ebb,
    inst: Inst,
    args: Seq<Value>,
)
    requires
        dfg.wf(),
        edges_valid(dfg, layout, cfg),
        is_pred(cfg, ebb, inst),
        skip is None || skip == Some(inst),
        repairing(dfg, cfg, pending, kind, ty, skip),
    ensures
        repairing(dfg.set_inst_args(inst, args), cfg, pending, kind, ty, Some(inst)),
        args_repairing(dfg, pending, ebb, fixed_args(dfg, inst), args, ty) ==> repairing(
            dfg.set_inst_args(inst, args),
            cfg,
            pending,
            kind,
            ty,
            None,
        ),
{
    let after = dfg.set_inst_args(inst, args);
    lemma_set_args_grows(dfg, layout, cfg, ebb, inst, args);
    assert forall|r: Repair| #[trigger] pending.contains(r) implies repair_ok(
        after,
        r,
        kind,
        ty,
    ) by {
        assert(repair_ok(dfg, r, kind, ty));
    }
    assert forall|e: Ebb, i: Inst| #[trigger] is_pred(cfg, e, i) && i != inst implies args_repairing(
        after,
        pending,
        e,
        fixed_args(after, i),
        after.inst(i).args,
        ty,
    ) by {
        assert(dfg.is_inst(i));
        assert(after.inst(i) == dfg.inst(i));
        lemma_args_repairing_kept(
            dfg,
            after,
            pending,
            pending,
            e,
            fixed_args(dfg, i),
            dfg.inst(i).args,
            ty,
        );
    }
    if args_repairing(dfg, pending, ebb, fixed_args(dfg, inst), args, ty) {
        assert forall|e: Ebb, i: Inst| #[trigger] is_pred(cfg, e, i) implies args_repairing(
            after,
            pending,
            e,
            fixed_args(after, i),
            after.inst(i).args,
            ty,
        ) by {
            if i == inst {
                assert(e == ebb);
                lemma_args_repairing_kept(
                    dfg,
                    after,
                    pending,
                    pending,
                    ebb,
                    fixed_args(dfg, inst),
                    args,
                    ty,
                );
            }
        }
    }
}

/// When every predecessor of the block of the repair `r` is repaired, the
/// function is as `repairing` says without `r`.
pub(crate) proof fn lemma_repairing_done(
    dfg: DfgView,
    cfg: Seq<Seq<(Ebb, Inst)>>,
    pending: Set<Repair>,
    rest: Set<Repair>,
    kind: ConcatKind,
    ty: Type,
    r: Repair,
)
    requires
        repairing(dfg, cfg, pending, kind, ty, None),
        pending.contains(r),
        forall|x: Repair| rest.contains(x) ==> #[trigger] pending.contains(x),
        forall|x: Repair| #[trigger] pending.contains(x) ==> rest.contains(x) || x == r,
        forall|inst: Inst| #[trigger]
            is_pred(cfg, r.ebb, inst) ==> is_repaired(
                dfg,
                r,
                fixed_args(dfg, inst),
                dfg.inst(inst).args,
            ),
    ensures
        repairing(dfg, cfg, rest, kind, ty, None),
{
    ty.lemma_half_differs();
    assert(repair_ok(dfg, r, kind, ty));
    assert forall|x: Repair| #[trigger] rest.contains(x) implies repair_ok(dfg, x, kind, ty) by {
        assert(pending.contains(x));
    }
    assert forall|r1: Repair, r2: Repair|
        #[trigger] rest.contains(r1) && #[trigger] rest.contains(r2) && r1.ebb
            == r2.ebb implies r1.num != r2.hi_num && (r1.num == r2.num <==> r1.hi_num
        == r2.hi_num) by {
        assert(pending.contains(r1) && pending.contains(r2));
    }
    assert forall|ebb: Ebb, inst: Inst| #[trigger] is_pred(cfg, ebb, inst) implies args_repairing(
        dfg,
        rest,
        ebb,
        fixed_args(dfg, inst),
        dfg.inst(inst).args,
        ty,
    ) by {
        let fixed = fixed_args(dfg, inst);
        let args = dfg.inst(inst).args;
        let params = dfg.ebb_params(ebb);
        let m = args.len() - fixed;
        assert(args_repairing(dfg, pending, ebb, fixed, args, ty));
        if ebb == r.ebb {
            assert(is_repaired(dfg, r, fixed, args));
        }
        assert forall|j: int| 0 <= j < m implies #[trigger] slot_ok(
            dfg,
            rest,
            ebb,
            fixed,
            args,
            j,
            ty,
        ) by {
            assert(slot_ok(dfg, pending, ebb, fixed, args, j, ty));
            if low_pending(pending, ebb, j) {
                let x = choose|x: Repair|
                    #[trigger] pending.contains(x) && x.ebb == ebb && x.num == j;
                if x == r {
                } else {
                    assert(rest.contains(x));
                }
            }
        }
        assert forall|j: int| m <= j < params.len() implies #[trigger] high_pending(
            dfg,
            rest,
            ebb,
            fixed,
            args,
            j,
            ty,
        ) by {
            assert(high_pending(dfg, pending, ebb, fixed, args, j, ty));
            let x = choose|x: Repair|
                #[trigger] pending.contains(x) && x.ebb == ebb && x.hi_num == j && fixed + x.num
                    < args.len() && dfg.value_type(args[fixed + x.num]) == ty;
            if x == r {
                assert(false);
            } else {
                assert(rest.contains(x));
            }
        }
        assert forall|x: Repair| #[trigger] rest.contains(x) && x.ebb == ebb implies x.num
            < m by {
            assert(pending.contains(x));
        }
    }
}

/// The elements of a sequence with one more element at its end.
pub(crate) proof fn lemma_push_to_set(repairs: Seq<Repair>, r: Repair)
    ensures
        repairs.push(r).to_set() == repairs.to_set().insert(r),
{
    let pushed = repairs.push(r);
    assert forall|x: Repair| pushed.to_set().contains(x) <==> repairs.to_set().insert(r).contains(
        x,
    ) by {
        if pushed.contains(x) {
            let k = choose|k: int| 0 <= k < pushed.len() && pushed[k] == x;
            if k < repairs.len() {
                assert(repairs[k] == x);
            }
        }
        if repairs.contains(x) {
            let k = choose|k: int| 0 <= k < repairs.len() && repairs[k] == x;
            assert(pushed[k] == x);
        }
        if x == r {
            assert(pushed[repairs.len() as int] == r);
        }
    }
    assert(pushed.to_set() =~= repairs.to_set().insert(r));
}

} // verus!
