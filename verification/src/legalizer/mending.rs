//! The function while the legalizer works on it.
//!
//! `mending` puts together what holds of a function from the moment a value
//! is split until the last repair is done: the function has come out of the
//! function it was at the beginning as `tracking` says, its branches are as
//! `repairing` says, and it is well formed and typed. The lemmas of this
//! module carry `mending` through the steps of a repair: a list of branch
//! arguments is taken out, the argument for a split parameter is split, the
//! halves are written into the list, and the list is put back.

use crate::ir::dfg::DfgView;
use crate::ir::entities::{Ebb, Inst, Value};
use crate::ir::layout::{CursorPosition, CursorView, LayoutView};
use crate::ir::types::Type;
use crate::legalizer::consistency::{
    added_by_split, concats_typed, consistent_function, count_params, edges_valid, fixed_args,
    function_wf, grows, is_pred, lemma_edges_valid_grown, lemma_function_wf_set_args,
    lemma_grows_reflexive, lemma_grows_transitive, lemma_is_split, lemma_layout_after_split,
    lemma_set_args_grows, lemma_split_graph, split_from,
};
use crate::legalizer::placement::{
    lemma_list_placed_split, lemma_list_placed_written, lemma_placed_set_args,
    lemma_placed_split, list_placed,
};
use crate::legalizer::repairing::{
    args_repairing, high_pending, is_repaired, lemma_args_repairing_kept,
    lemma_args_repairing_split, lemma_args_repairing_written, lemma_repairing_done,
    lemma_repairing_finished, lemma_repairing_none, lemma_repairing_set_args,
    lemma_repairing_split, repair_ok, repaired_args, repairing, split_pending,
};
use crate::legalizer::split::{
    can_split, is_split, split_case, split_cursor, split_graph, split_halves, ConcatKind,
    Repair,
};
use crate::legalizer::tracking::{
    lemma_tracked_args_kept, lemma_tracked_args_split, lemma_tracked_args_written,
    lemma_tracking_done, lemma_tracking_set_args, lemma_tracking_split, lemma_tracking_start,
    tracked_args, tracking,
};
use vstd::prelude::*;

verus! {

/// The branch whose list of arguments is taken out, if one is.
pub open spec fn taken_branch(taken: Option<(Inst, Seq<Value>)>) -> Option<Inst> {
    match taken {
        Some((inst, _)) => Some(inst),
        None => None,
    }
}

/// The function `dfg` with `layout` has come out of the consistent function
/// `origin` with `origin_layout` by splitting parameters of type `ty` in
/// the way `kind`, and the repairs `pending` are due. With `taken`, the list
/// of arguments of a branch is taken out of the graph: the list is as the
/// lists in the graph are.
pub open spec fn mending(
    origin: DfgView,
    origin_layout: LayoutView,
    dfg: DfgView,
    layout: LayoutView,
    cfg: Seq<Seq<(Ebb, Inst)>>,
    pending: Set<Repair>,
    kind: ConcatKind,
    ty: Type,
    taken: Option<(Inst, Seq<Value>)>,
) -> bool {
    &&& consistent_function(origin, origin_layout, cfg)
    &&& function_wf(dfg, layout)
    &&& edges_valid(dfg, layout, cfg)
    &&& concats_typed(dfg)
    &&& split_from(origin, origin_layout, dfg, layout, cfg, kind)
    &&& repairing(dfg, cfg, pending, kind, ty, taken_branch(taken))
    &&& tracking(origin, dfg, cfg, pending, kind, ty, taken_branch(taken))
    &&& taken matches Some((inst, args)) ==> {
        let ebb = dfg.inst(inst).destination->0;
        &&& is_pred(cfg, ebb, inst)
        &&& dfg.inst(inst).args.len() == 0
        &&& args_repairing(dfg, pending, ebb, fixed_args(dfg, inst), args, ty)
        &&& list_placed(origin, origin_layout, dfg, layout, inst, args)
        &&& tracked_args(
            origin,
            dfg,
            pending,
            kind,
            ty,
            ebb,
            fixed_args(dfg, inst),
            origin.inst(inst).args,
            args,
        )
    }
}

/// A consistent function has come out of itself, with no repair due.
pub(crate) proof fn lemma_mending_start(
    dfg: DfgView,
    layout: LayoutView,
    cfg: Seq<Seq<(Ebb, Inst)>>,
    kind: ConcatKind,
    ty: Type,
)
    requires
        consistent_function(dfg, layout, cfg),
    ensures
        mending(dfg, layout, dfg, layout, cfg, Set::empty(), kind, ty, None),
{
    lemma_grows_reflexive(dfg);
    lemma_repairing_none(dfg, layout, cfg, kind, ty);
    lemma_tracking_start(dfg, cfg, kind, ty);
    assert forall|user: Inst| #[trigger] dfg.is_inst(user) implies list_placed(
        dfg,
        layout,
        dfg,
        layout,
        user,
        dfg.inst(user).args,
    ) by {
        assert(dfg.inst_wf(user));
        assert forall|k: int|
            0 <= k < dfg.inst(user).args.len() && dfg.value(#[trigger] dfg.inst(user).args[k])
                is Inst implies dfg.is_inst(dfg.value(dfg.inst(user).args[k])->inst) by {
            assert(dfg.value_wf(dfg.inst(user).args[k]));
        }
    }
}

/// With no repair due, the function is consistent again.
pub(crate) proof fn lemma_mending_finished(
    origin: DfgView,
    origin_layout: LayoutView,
    dfg: DfgView,
    layout: LayoutView,
    cfg: Seq<Seq<(Ebb, Inst)>>,
    kind: ConcatKind,
    ty: Type,
)
    requires
        mending(origin, origin_layout, dfg, layout, cfg, Set::empty(), kind, ty, None),
    ensures
        consistent_function(dfg, layout, cfg),
{
    lemma_repairing_finished(dfg, layout, cfg, kind, ty);
}

/// Every repair that is due is for a block of the function.
proof fn lemma_pending_blocks(
    origin: DfgView,
    dfg: DfgView,
    pending: Set<Repair>,
    kind: ConcatKind,
    ty: Type,
    cfg: Seq<Seq<(Ebb, Inst)>>,
    skip: Option<Inst>,
)
    requires
        grows(origin, dfg),
        repairing(dfg, cfg, pending, kind, ty, skip),
    ensures
        forall|r: Repair| #[trigger] pending.contains(r) ==> origin.is_ebb(r.ebb),
{
    assert forall|r: Repair| #[trigger] pending.contains(r) implies origin.is_ebb(r.ebb) by {
        assert(repair_ok(dfg, r, kind, ty));
    }
}

/// Replacing the arguments of a predecessor adds no instruction and changes
/// no other instruction.
proof fn lemma_added_set_args(
    origin: DfgView,
    dfg: DfgView,
    layout: LayoutView,
    cfg: Seq<Seq<(Ebb, Inst)>>,
    kind: ConcatKind,
    ebb: Ebb,
    inst: Inst,
    args: Seq<Value>,
)
    requires
        grows(origin, dfg),
        edges_valid(dfg, layout, cfg),
        is_pred(cfg, ebb, inst),
        forall|i: Inst| #[trigger]
            dfg.is_inst(i) && !origin.is_inst(i) ==> added_by_split(dfg, layout, kind, i),
        forall|i: Inst| #[trigger]
            origin.is_inst(i) && i != inst && !is_pred(cfg, origin.inst(i).destination->0, i)
                ==> dfg.inst(i) == origin.inst(i),
    ensures
        forall|i: Inst| #[trigger]
            dfg.set_inst_args(inst, args).is_inst(i) && !origin.is_inst(i) ==> added_by_split(
                dfg.set_inst_args(inst, args),
                layout,
                kind,
                i,
            ),
        forall|i: Inst| #[trigger]
            origin.is_inst(i) && !is_pred(cfg, origin.inst(i).destination->0, i)
                ==> dfg.set_inst_args(inst, args).inst(i) == origin.inst(i),
{
    let after = dfg.set_inst_args(inst, args);
    assert(dfg.is_inst(inst));
    assert forall|i: Inst| #[trigger] after.is_inst(i) && !origin.is_inst(i) implies added_by_split(
        after,
        layout,
        kind,
        i,
    ) by {
        assert(dfg.is_inst(i));
        assert(added_by_split(dfg, layout, kind, i));
    }
    assert forall|i: Inst| #[trigger]
        origin.is_inst(i) && !is_pred(
            cfg,
            origin.inst(i).destination->0,
            i,
        ) implies after.inst(i) == origin.inst(i) by {
        if i == inst {
            assert(origin.inst(inst).destination == dfg.inst(inst).destination);
        }
    }
}

/// The function is still mending when the list of arguments of a
/// predecessor is taken out of the graph.
pub(crate) proof fn lemma_mending_take(
    origin: DfgView,
    origin_layout: LayoutView,
    dfg: DfgView,
    layout: LayoutView,
    cfg: Seq<Seq<(Ebb, Inst)>>,
    pending: Set<Repair>,
    kind: ConcatKind,
    ty: Type,
    ebb: Ebb,
    inst: Inst,
)
    requires
        mending(origin, origin_layout, dfg, layout, cfg, pending, kind, ty, None),
        is_pred(cfg, ebb, inst),
    ensures
        mending(
            origin,
            origin_layout,
            dfg.set_inst_args(inst, Seq::empty()),
            layout,
            cfg,
            pending,
            kind,
            ty,
            Some((inst, dfg.inst(inst).args)),
        ),
        dfg.is_inst(inst),
        dfg.inst(inst).destination == Some(ebb),
        fixed_args(origin, inst) == fixed_args(dfg, inst),
{
    let taken = dfg.set_inst_args(inst, Seq::empty());
    let args = dfg.inst(inst).args;
    let fixed = fixed_args(dfg, inst);
    assert(dfg.is_inst(inst));
    assert(dfg.inst_wf(inst));
    assert(origin.is_inst(inst));
    assert(origin.inst_wf(inst));
    assert(origin.is_ebb(ebb));
    assert(args_repairing(dfg, pending, ebb, fixed, args, ty));
    lemma_pending_blocks(origin, dfg, pending, kind, ty, cfg, None);
    lemma_added_set_args(origin, dfg, layout, cfg, kind, ebb, inst, Seq::empty());
    lemma_placed_set_args(origin, origin_layout, dfg, layout, kind, inst, Seq::empty());
    lemma_set_args_grows(dfg, layout, cfg, ebb, inst, Seq::empty());
    lemma_function_wf_set_args(dfg, layout, inst, Seq::empty());
    lemma_grows_transitive(origin, dfg, taken);
    lemma_repairing_set_args(dfg, layout, cfg, pending, kind, ty, None, ebb, inst, Seq::empty());
    lemma_args_repairing_kept(dfg, taken, pending, pending, ebb, fixed, args, ty);
    lemma_tracking_set_args(
        origin,
        dfg,
        origin_layout,
        layout,
        cfg,
        pending,
        kind,
        ty,
        None,
        ebb,
        inst,
        Seq::empty(),
    );
    lemma_tracked_args_kept(
        origin,
        dfg,
        taken,
        pending,
        pending,
        kind,
        ty,
        ebb,
        fixed,
        origin.inst(inst).args,
        args,
    );
}

/// The function is still mending after a value of type `ty` was split, with
/// one more repair due where a parameter was split. The halves are values
/// of the half type and make up the value, and where a parameter was split
/// there is one parameter less of type `ty`.
pub(crate) proof fn lemma_mending_split(
    origin: DfgView,
    origin_layout: LayoutView,
    dfg: DfgView,
    cursor: CursorView,
    cfg: Seq<Seq<(Ebb, Inst)>>,
    pending: Set<Repair>,
    kind: ConcatKind,
    taken: Option<(Inst, Seq<Value>)>,
    value: Value,
)
    requires
        mending(
            origin,
            origin_layout,
            dfg,
            cursor.layout,
            cfg,
            pending,
            kind,
            dfg.value_type(value),
            taken,
        ),
        cursor.wf(),
        can_split(dfg, cursor, value, kind),
        kind.spec_half_type(dfg.value_type(value)) is Some,
        function_wf(
            split_graph(dfg, cursor.layout, value, kind),
            split_cursor(dfg, cursor, value, kind).layout,
        ),
    ensures
        ({
            let after = split_graph(dfg, cursor.layout, value, kind);
            let halves = split_halves(dfg, cursor.layout, value, kind);
            let ty = dfg.value_type(value);
            &&& mending(
                origin,
                origin_layout,
                after,
                split_cursor(dfg, cursor, value, kind).layout,
                cfg,
                split_pending(dfg, cursor.layout, value, kind, pending),
                kind,
                ty,
                taken,
            )
            &&& grows(dfg, after)
            &&& after.is_value(halves.0)
            &&& after.is_value(halves.1)
            &&& Some(after.value_type(halves.0)) == kind.spec_half_type(ty)
            &&& Some(after.value_type(halves.1)) == kind.spec_half_type(ty)
            &&& is_split(after, value, kind, halves)
            &&& cursor.pos matches CursorPosition::At(user) ==> list_placed(
                origin,
                origin_layout,
                after,
                split_cursor(dfg, cursor, value, kind).layout,
                user,
                seq![halves.0, halves.1],
            )
            &&& count_params(after.values, ty) + (if split_case(dfg, cursor.layout, value, kind)
                is Param {
                1nat
            } else {
                0nat
            }) == count_params(dfg.values, ty)
        }),
{
    let layout = cursor.layout;
    let after = split_graph(dfg, layout, value, kind);
    let moved = split_cursor(dfg, cursor, value, kind).layout;
    let ty = dfg.value_type(value);
    let skip = taken_branch(taken);
    lemma_split_graph(dfg, layout, value, kind);
    lemma_layout_after_split(dfg, cursor, value, kind);
    lemma_is_split(dfg, layout, value, kind);
    lemma_grows_transitive(origin, dfg, after);
    lemma_edges_valid_grown(dfg, after, layout, moved, cfg);
    lemma_pending_blocks(origin, dfg, pending, kind, ty, cfg, skip);
    lemma_repairing_split(dfg, layout, cfg, value, kind, pending, skip);
    lemma_tracking_split(origin, dfg, origin_layout, layout, cfg, value, kind, pending, skip);
    lemma_placed_split(origin, origin_layout, dfg, cursor, value, kind);
    assert forall|i: Inst| #[trigger] after.is_inst(i) && !origin.is_inst(i) implies added_by_split(
        after,
        moved,
        kind,
        i,
    ) by {
        if dfg.is_inst(i) {
            assert(added_by_split(dfg, layout, kind, i));
        }
    }
    assert forall|i: Inst| #[trigger]
        origin.is_inst(i) && !is_pred(
            cfg,
            origin.inst(i).destination->0,
            i,
        ) implies after.inst(i) == origin.inst(i) by {
        assert(dfg.is_inst(i));
    }
    if let Some((inst, args)) = taken {
        let ebb = dfg.inst(inst).destination->0;
        assert(dfg.is_inst(inst));
        assert(after.inst(inst) == dfg.inst(inst));
        assert(origin.is_inst(inst));
        assert(origin.inst_wf(inst));
        assert(origin.is_ebb(ebb));
        lemma_args_repairing_split(
            dfg,
            layout,
            value,
            kind,
            pending,
            ebb,
            fixed_args(dfg, inst),
            args,
        );
        lemma_tracked_args_split(
            origin,
            dfg,
            layout,
            value,
            kind,
            pending,
            ebb,
            fixed_args(dfg, inst),
            origin.inst(inst).args,
            args,
        );
        lemma_list_placed_split(origin, origin_layout, dfg, cursor, value, kind, inst, args);
    }
}

/// The function is still mending when the list that was taken out is put
/// back as it is. A list that holds a value of the half type at the place
/// of the repair `r` is repaired.
pub(crate) proof fn lemma_mending_put_back(
    origin: DfgView,
    origin_layout: LayoutView,
    dfg: DfgView,
    layout: LayoutView,
    cfg: Seq<Seq<(Ebb, Inst)>>,
    pending: Set<Repair>,
    kind: ConcatKind,
    ty: Type,
    inst: Inst,
    args: Seq<Value>,
    r: Repair,
)
    requires
        mending(origin, origin_layout, dfg, layout, cfg, pending, kind, ty, Some((inst, args))),
        pending.contains(r),
        dfg.inst(inst).destination == Some(r.ebb),
        fixed_args(dfg, inst) + r.num < args.len(),
        dfg.value_type(args[fixed_args(dfg, inst) + r.num]) == r.split_type,
    ensures
        mending(
            origin,
            origin_layout,
            dfg.set_inst_args(inst, args),
            layout,
            cfg,
            pending,
            kind,
            ty,
            None,
        ),
        is_repaired(dfg.set_inst_args(inst, args), r, fixed_args(dfg, inst), args),
{
    let fixed = fixed_args(dfg, inst);
    let ebb = r.ebb;
    lemma_mending_put(origin, origin_layout, dfg, layout, cfg, pending, kind, ty, inst, args, args);
    // The high half is in the list: were it missing, the repair that is due for its
    // place would find a whole value at the place of the low half.
    ty.lemma_half_differs();
    assert(repair_ok(dfg, r, kind, ty));
    if args.len() <= fixed + r.hi_num {
        assert(high_pending(dfg, pending, ebb, fixed, args, r.hi_num as int, ty));
    }
}

/// The function is mending, with no list taken out, when a list that is as
/// the lists in the graph are is put in place of the list that was taken
/// out.
proof fn lemma_mending_put(
    origin: DfgView,
    origin_layout: LayoutView,
    dfg: DfgView,
    layout: LayoutView,
    cfg: Seq<Seq<(Ebb, Inst)>>,
    pending: Set<Repair>,
    kind: ConcatKind,
    ty: Type,
    inst: Inst,
    args: Seq<Value>,
    new_args: Seq<Value>,
)
    requires
        mending(origin, origin_layout, dfg, layout, cfg, pending, kind, ty, Some((inst, args))),
        args_repairing(
            dfg,
            pending,
            dfg.inst(inst).destination->0,
            fixed_args(dfg, inst),
            new_args,
            ty,
        ),
        tracked_args(
            origin,
            dfg,
            pending,
            kind,
            ty,
            dfg.inst(inst).destination->0,
            fixed_args(dfg, inst),
            origin.inst(inst).args,
            new_args,
        ),
        list_placed(origin, origin_layout, dfg, layout, inst, new_args),
    ensures
        mending(
            origin,
            origin_layout,
            dfg.set_inst_args(inst, new_args),
            layout,
            cfg,
            pending,
            kind,
            ty,
            None,
        ),
{
    let ebb = dfg.inst(inst).destination->0;
    let after = dfg.set_inst_args(inst, new_args);
    assert(dfg.is_inst(inst));
    assert(dfg.inst_wf(inst));
    assert(origin.is_inst(inst));
    lemma_pending_blocks(origin, dfg, pending, kind, ty, cfg, Some(inst));
    lemma_added_set_args(origin, dfg, layout, cfg, kind, ebb, inst, new_args);
    lemma_placed_set_args(origin, origin_layout, dfg, layout, kind, inst, new_args);
    lemma_set_args_grows(dfg, layout, cfg, ebb, inst, new_args);
    lemma_function_wf_set_args(dfg, layout, inst, new_args);
    lemma_grows_transitive(origin, dfg, after);
    lemma_repairing_set_args(dfg, layout, cfg, pending, kind, ty, Some(inst), ebb, inst, new_args);
    lemma_tracking_set_args(
        origin,
        dfg,
        origin_layout,
        layout,
        cfg,
        pending,
        kind,
        ty,
        Some(inst),
        ebb,
        inst,
        new_args,
    );
}

/// The function is still mending when the list that was taken out is put
/// back with the halves `lo` and `hi` of the argument for the parameter of
/// the repair `r` written into it, and the branch is repaired.
pub(crate) proof fn lemma_mending_written(
    origin: DfgView,
    origin_layout: LayoutView,
    dfg: DfgView,
    layout: LayoutView,
    cfg: Seq<Seq<(Ebb, Inst)>>,
    pending: Set<Repair>,
    kind: ConcatKind,
    ty: Type,
    inst: Inst,
    args: Seq<Value>,
    r: Repair,
    lo: Value,
    hi: Value,
)
    requires
        mending(origin, origin_layout, dfg, layout, cfg, pending, kind, ty, Some((inst, args))),
        pending.contains(r),
        dfg.inst(inst).destination == Some(r.ebb),
        fixed_args(dfg, inst) + r.num < args.len(),
        dfg.value_type(args[fixed_args(dfg, inst) + r.num]) == ty,
        dfg.is_value(lo),
        dfg.is_value(hi),
        dfg.value_type(lo) == r.split_type,
        dfg.value_type(hi) == r.split_type,
        is_split(dfg, args[fixed_args(dfg, inst) + r.num], kind, (lo, hi)),
        list_placed(origin, origin_layout, dfg, layout, inst, seq![lo, hi]),
    ensures
        mending(
            origin,
            origin_layout,
            dfg.set_inst_args(inst, repaired_args(args, fixed_args(dfg, inst), r, lo, hi)),
            layout,
            cfg,
            pending,
            kind,
            ty,
            None,
        ),
        is_repaired(
            dfg.set_inst_args(inst, repaired_args(args, fixed_args(dfg, inst), r, lo, hi)),
            r,
            fixed_args(dfg, inst),
            repaired_args(args, fixed_args(dfg, inst), r, lo, hi),
        ),
{
    let fixed = fixed_args(dfg, inst);
    let written = repaired_args(args, fixed, r, lo, hi);
    assert(repair_ok(dfg, r, kind, ty));
    assert(origin.is_ebb(r.ebb));
    lemma_args_repairing_written(dfg, pending, kind, ty, r, fixed, args, lo, hi);
    lemma_list_placed_written(origin, origin_layout, dfg, layout, inst, args, fixed, r, lo, hi);
    lemma_tracked_args_written(
        origin,
        dfg,
        pending,
        kind,
        ty,
        r,
        fixed,
        origin.inst(inst).args,
        args,
        lo,
        hi,
    );
    lemma_mending_put(
        origin,
        origin_layout,
        dfg,
        layout,
        cfg,
        pending,
        kind,
        ty,
        inst,
        args,
        written,
    );
}

/// When every predecessor of the block of the repair `r` is repaired, the
/// function is mending without `r`.
pub(crate) proof fn lemma_mending_done(
    origin: DfgView,
    origin_layout: LayoutView,
    dfg: DfgView,
    layout: LayoutView,
    cfg: Seq<Seq<(Ebb, Inst)>>,
    pending: Set<Repair>,
    rest: Set<Repair>,
    kind: ConcatKind,
    ty: Type,
    r: Repair,
)
    requires
        mending(origin, origin_layout, dfg, layout, cfg, pending, kind, ty, None),
        pending.contains(r),
        forall|x: Repair| rest.contains(x) ==> #[trigger] pending.contains(x),
        forall|x: Repair| #[trigger] pending.contains(x) ==> rest.contains(x) || x == r,
        forall|inst: Inst| #[trigger]
            is_pred(cfg, r.ebb, inst) ==> is_repaired(
                dfg,
                r,
                fixed_args(dfg, inst),
                dfg.inst(inst).args,
            ),
    ensures
        mending(origin, origin_layout, dfg, layout, cfg, rest, kind, ty, None),
{
    assert(repair_ok(dfg, r, kind, ty));
    lemma_repairing_done(dfg, cfg, pending, rest, kind, ty, r);
    assert forall|inst: Inst| #[trigger] is_pred(cfg, r.ebb, inst) implies is_repaired(
        dfg,
        r,
        fixed_args(origin, inst),
        dfg.inst(inst).args,
    ) by {
        assert(origin.is_inst(inst));
    }
    lemma_tracking_done(origin, dfg, cfg, pending, rest, kind, ty, r);
}

} // verus!
