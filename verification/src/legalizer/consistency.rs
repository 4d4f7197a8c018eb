//! What holds of a function whose values are split: the predecessor lists
//! fit the function, the branches are consistent with the blocks they go to,
//! concatenations and splits are typed, and the graph grows.
//!
//! A branch is consistent with its destination when it passes one argument
//! for each parameter of the block, of the type of the parameter. The
//! legalizer asks this of the function it is given and leaves the function
//! so.

use crate::ir::dfg::{DfgView, ValueData};
use crate::ir::entities::{Ebb, Inst, Value};
use crate::ir::instructions::{InstView, InstructionFormat};
use crate::ir::layout::{CursorPosition, CursorView, LayoutView};
use crate::ir::types::Type;
use crate::legalizer::placement::placed;
use crate::legalizer::split::{
    can_split, is_split, split_case, split_cursor, split_graph, split_halves, split_param,
    ConcatKind, SplitCase,
};
use vstd::prelude::*;

verus! {

/// The function is well formed: the data flow graph and the layout are, no
/// value is detached, every instruction of the layout is an instruction of
/// the graph, and every block of the graph is in the layout.
pub open spec fn function_wf(dfg: DfgView, layout: LayoutView) -> bool {
    &&& dfg.wf()
    &&& dfg.settled()
    &&& layout.wf()
    &&& forall|i: Inst| #[trigger] layout.is_inst_inserted(i) ==> dfg.is_inst(i)
    &&& forall|e: Ebb| #[trigger] dfg.is_ebb(e) ==> layout.is_ebb_inserted(e)
}

/// Is `inst` recorded as a predecessor of `ebb`?
pub open spec fn is_pred(cfg: Seq<Seq<(Ebb, Inst)>>, ebb: Ebb, inst: Inst) -> bool {
    ebb.0 < cfg.len() && exists|k: int|
        0 <= k < cfg[ebb.0 as int].len() && (#[trigger] cfg[ebb.0 as int][k]).1 == inst
}

/// The predecessor lists fit the function: there is one list for each block,
/// and every predecessor of a block is an instruction of the layout that
/// branches to the block.
pub open spec fn edges_valid(dfg: DfgView, layout: LayoutView, cfg: Seq<Seq<(Ebb, Inst)>>) -> bool {
    &&& cfg.len() == dfg.params.len()
    &&& forall|ebb: Ebb, inst: Inst| #[trigger]
        is_pred(cfg, ebb, inst) ==> {
            &&& dfg.is_inst(inst)
            &&& layout.is_inst_inserted(inst)
            &&& dfg.inst(inst).destination == Some(ebb)
        }
}

/// The number of operands of the branch `inst` that come before its block
/// arguments.
pub open spec fn fixed_args(dfg: DfgView, inst: Inst) -> int {
    dfg.inst(inst).opcode.spec_fixed_value_arguments() as int
}

/// The list `args` of a branch to `ebb` with `fixed` operands before the
/// block arguments passes one argument for each parameter of `ebb`, of the
/// type of the parameter.
pub open spec fn args_consistent(dfg: DfgView, ebb: Ebb, fixed: int, args: Seq<Value>) -> bool {
    let params = dfg.ebb_params(ebb);
    &&& args.len() == fixed + params.len()
    &&& forall|j: int|
        0 <= j < params.len() ==> dfg.value_type(args[fixed + j]) == dfg.value_type(
            #[trigger] params[j],
        )
}

/// Every predecessor of every block passes one argument for each parameter
/// of the block, of the type of the parameter.
pub open spec fn edges_consistent(dfg: DfgView, cfg: Seq<Seq<(Ebb, Inst)>>) -> bool {
    forall|ebb: Ebb, inst: Inst| #[trigger]
        is_pred(cfg, ebb, inst) ==> args_consistent(
            dfg,
            ebb,
            fixed_args(dfg, inst),
            dfg.inst(inst).args,
        )
}

/// The concatenation `inst` puts together two halves of the type that
/// halving the type of its result gives.
pub open spec fn concat_typed(dfg: DfgView, inst: Inst, kind: ConcatKind) -> bool {
    let half = kind.spec_half_type(dfg.value_type(dfg.inst_results(inst)[0]));
    &&& half == Some(dfg.value_type(dfg.inst(inst).args[0]))
    &&& half == Some(dfg.value_type(dfg.inst(inst).args[1]))
}

/// Every concatenation of the graph puts together two halves of the type
/// that halving the type of its result gives.
pub open spec fn concats_typed(dfg: DfgView) -> bool {
    forall|inst: Inst, kind: ConcatKind|
        dfg.is_inst(inst) && dfg.inst(inst).opcode == kind.spec_concat_opcode()
            ==> #[trigger] concat_typed(dfg, inst, kind)
}

/// The function that the legalizer is given: well formed, with predecessor
/// lists that fit it, branches that are consistent with the blocks they go
/// to, and typed concatenations.
pub open spec fn consistent_function(
    dfg: DfgView,
    layout: LayoutView,
    cfg: Seq<Seq<(Ebb, Inst)>>,
) -> bool {
    &&& function_wf(dfg, layout)
    &&& edges_valid(dfg, layout, cfg)
    &&& edges_consistent(dfg, cfg)
    &&& concats_typed(dfg)
}

/// The split `inst` gives two halves of the type that halving the type of
/// its operand gives.
pub open spec fn split_typed(dfg: DfgView, inst: Inst, kind: ConcatKind) -> bool {
    let half = kind.spec_half_type(dfg.value_type(dfg.inst(inst).args[0]));
    &&& half == Some(dfg.value_type(dfg.inst_results(inst)[0]))
    &&& half == Some(dfg.value_type(dfg.inst_results(inst)[1]))
}

/// Every split of the graph gives two halves of the type that halving the
/// type of its operand gives.
pub open spec fn splits_typed(dfg: DfgView) -> bool {
    forall|inst: Inst, kind: ConcatKind|
        dfg.is_inst(inst) && dfg.inst(inst).opcode == kind.spec_split_opcode()
            ==> #[trigger] split_typed(dfg, inst, kind)
}

/// The values of `before` are values of `after`, with the types they had.
pub open spec fn keeps_types(before: DfgView, after: DfgView) -> bool {
    &&& before.values.len() <= after.values.len()
    &&& forall|v: Value| #[trigger]
        before.is_value(v) ==> after.value_type(v) == before.value_type(v)
}

/// The graph `after` has grown out of `before` as splitting values makes a
/// graph grow: values and instructions are added, a value stays what it was
/// unless it was a parameter and is now an alias, results of instructions
/// stand for what they stood for, two values that stood for the same value
/// still do, every value keeps its type, an instruction that is no branch
/// stays as it is and a branch keeps its opcode and its destination, and no
/// block loses a parameter.
pub open spec fn grows(before: DfgView, after: DfgView) -> bool {
    &&& keeps_types(before, after)
    &&& before.insts.len() <= after.insts.len()
    &&& before.params.len() == after.params.len()
    &&& forall|v: Value|
        before.is_value(v) ==> #[trigger] after.value(v) == before.value(v) || (before.value(v)
            is Param && after.value(v) is Alias)
    &&& forall|v: Value|
        before.is_value(v) && before.value(#[trigger] before.resolve(v)) is Inst
            ==> after.resolve(v) == before.resolve(v)
    &&& forall|x: Value, y: Value|
        #![trigger before.resolve(x), before.resolve(y)]
        before.is_value(x) && before.is_value(y) && before.resolve(x) == before.resolve(y)
            ==> after.resolve(x) == after.resolve(y)
    &&& forall|i: Inst| #[trigger]
        before.is_inst(i) ==> {
            &&& after.inst(i).format == before.inst(i).format
            &&& after.inst(i).opcode == before.inst(i).opcode
            &&& after.inst(i).destination == before.inst(i).destination
            &&& before.inst(i).format != InstructionFormat::Branch ==> after.inst(i)
                == before.inst(i)
            &&& after.inst_results(i) == before.inst_results(i)
        }
    &&& forall|e: Ebb| #[trigger]
        before.is_ebb(e) ==> before.ebb_params(e).len() <= after.ebb_params(e).len()
}

/// A graph has grown out of itself.
pub(crate) proof fn lemma_grows_reflexive(dfg: DfgView)
    ensures
        grows(dfg, dfg),
{
}

/// A graph that has grown out of a graph that has grown out of a third has
/// grown out of the third.
pub(crate) proof fn lemma_grows_transitive(a: DfgView, b: DfgView, c: DfgView)
    requires
        a.wf(),
        grows(a, b),
        grows(b, c),
    ensures
        grows(a, c),
{
    assert forall|v: Value| #[trigger] a.is_value(v) implies c.value_type(v) == a.value_type(
        v,
    ) by {
        assert(b.is_value(v));
    }
    assert forall|v: Value| a.is_value(v) implies #[trigger] c.value(v) == a.value(v) || (a.value(
        v,
    ) is Param && c.value(v) is Alias) by {
        assert(b.is_value(v));
        assert(b.value(v) == a.value(v) || (a.value(v) is Param && b.value(v) is Alias));
        assert(c.value(v) == b.value(v) || (b.value(v) is Param && c.value(v) is Alias));
    }
    assert forall|v: Value| a.is_value(v) && a.value(#[trigger] a.resolve(v)) is Inst implies c.resolve(
        v,
    ) == a.resolve(v) by {
        a.lemma_resolve(v);
        let r = a.resolve(v);
        assert(a.value(r) is Inst);
        assert(b.value(r) == a.value(r));
        assert(b.resolve(v) == r);
        assert(b.is_value(v));
        assert(b.value(b.resolve(v)) is Inst);
    }
    assert forall|x: Value, y: Value|
        #![trigger a.resolve(x), a.resolve(y)]
        a.is_value(x) && a.is_value(y) && a.resolve(x) == a.resolve(y) implies c.resolve(x)
        == c.resolve(y) by {
        assert(b.is_value(x) && b.is_value(y));
        assert(b.resolve(x) == b.resolve(y));
    }
    assert forall|i: Inst| #[trigger] a.is_inst(i) implies ({
        &&& c.inst(i).format == a.inst(i).format
        &&& c.inst(i).opcode == a.inst(i).opcode
        &&& c.inst(i).destination == a.inst(i).destination
        &&& a.inst(i).format != InstructionFormat::Branch ==> c.inst(i) == a.inst(i)
        &&& c.inst_results(i) == a.inst_results(i)
    }) by {
        assert(b.is_inst(i));
    }
    assert forall|e: Ebb| #[trigger] a.is_ebb(e) implies a.ebb_params(e).len()
        <= c.ebb_params(e).len() by {
        assert(b.is_ebb(e));
    }
}

/// The predecessor lists still fit a function whose graph has grown and
/// whose layout has kept its instructions.
pub(crate) proof fn lemma_edges_valid_grown(
    before: DfgView,
    after: DfgView,
    layout: LayoutView,
    grown: LayoutView,
    cfg: Seq<Seq<(Ebb, Inst)>>,
)
    requires
        edges_valid(before, layout, cfg),
        grows(before, after),
        forall|i: Inst| #[trigger] layout.is_inst_inserted(i) ==> grown.is_inst_inserted(i),
    ensures
        edges_valid(after, grown, cfg),
{
    assert forall|ebb: Ebb, inst: Inst| #[trigger] is_pred(cfg, ebb, inst) implies {
        &&& after.is_inst(inst)
        &&& grown.is_inst_inserted(inst)
        &&& after.inst(inst).destination == Some(ebb)
    } by {
        assert(before.is_inst(inst));
    }
}

/// Replacing the operands of a branch lets the graph grow: the predecessor
/// lists still fit the function, and concatenations and splits are typed as
/// before.
pub(crate) proof fn lemma_set_args_grows(
    dfg: DfgView,
    layout: LayoutView,
    cfg: Seq<Seq<(Ebb, Inst)>>,
    ebb: Ebb,
    inst: Inst,
    args: Seq<Value>,
)
    requires
        dfg.wf(),
        edges_valid(dfg, layout, cfg),
        is_pred(cfg, ebb, inst),
    ensures
        grows(dfg, dfg.set_inst_args(inst, args)),
        edges_valid(dfg.set_inst_args(inst, args), layout, cfg),
        concats_typed(dfg) ==> concats_typed(dfg.set_inst_args(inst, args)),
        splits_typed(dfg) ==> splits_typed(dfg.set_inst_args(inst, args)),
{
    let after = dfg.set_inst_args(inst, args);
    assert(dfg.is_inst(inst));
    assert(dfg.inst_wf(inst));
    assert forall|e: Ebb, i: Inst| #[trigger] is_pred(cfg, e, i) implies {
        &&& after.is_inst(i)
        &&& layout.is_inst_inserted(i)
        &&& after.inst(i).destination == Some(e)
    } by {
        assert(dfg.is_inst(i));
    }
    if concats_typed(dfg) {
        assert forall|i: Inst, k: ConcatKind|
            after.is_inst(i) && after.inst(i).opcode
                == k.spec_concat_opcode() implies #[trigger] concat_typed(after, i, k) by {
            assert(concat_typed(dfg, i, k));
        }
    }
    if splits_typed(dfg) {
        assert forall|i: Inst, k: ConcatKind|
            after.is_inst(i) && after.inst(i).opcode
                == k.spec_split_opcode() implies #[trigger] split_typed(after, i, k) by {
            assert(split_typed(dfg, i, k));
        }
    }
}

/// Replacing the operands of an instruction by values of the graph keeps
/// the function well formed.
pub(crate) proof fn lemma_function_wf_set_args(
    dfg: DfgView,
    layout: LayoutView,
    inst: Inst,
    args: Seq<Value>,
)
    requires
        function_wf(dfg, layout),
        dfg.is_inst(inst),
        dfg.accepts_args(inst, args),
    ensures
        function_wf(dfg.set_inst_args(inst, args), layout),
{
    let after = dfg.set_inst_args(inst, args);
    dfg.lemma_set_inst_args_wf(inst, args);
    assert forall|e: Ebb| #[trigger] after.is_ebb(e) implies layout.is_ebb_inserted(e) by {
        assert(dfg.is_ebb(e));
    }
}

/// The number of block parameters of type `ty` among `values`.
pub open spec fn count_params(values: Seq<ValueData>, ty: Type) -> nat
    decreases values.len(),
{
    if values.len() == 0 {
        0
    } else {
        count_params(values.drop_last(), ty) + param_of_type(values.last(), ty)
    }
}

/// 1 if `data` is a block parameter of type `ty`, else 0.
pub open spec fn param_of_type(data: ValueData, ty: Type) -> nat {
    if data is Param && data.ty() == ty {
        1
    } else {
        0
    }
}

/// A value more counts if it is a parameter of the type.
pub(crate) proof fn lemma_count_push(values: Seq<ValueData>, data: ValueData, ty: Type)
    ensures
        count_params(values.push(data), ty) == count_params(values, ty) + param_of_type(data, ty),
{
    assert(values.push(data).drop_last() =~= values);
}

/// Replacing a value changes the count by what the old and the new value
/// count.
pub(crate) proof fn lemma_count_update(values: Seq<ValueData>, i: int, data: ValueData, ty: Type)
    requires
        0 <= i < values.len(),
    ensures
        count_params(values.update(i, data), ty) + param_of_type(values[i], ty) == count_params(
            values,
            ty,
        ) + param_of_type(data, ty),
    decreases values.len(),
{
    let updated = values.update(i, data);
    if i == values.len() - 1 {
        assert(updated.drop_last() =~= values.drop_last());
    } else {
        assert(updated.drop_last() =~= values.drop_last().update(i, data));
        lemma_count_update(values.drop_last(), i, data, ty);
    }
}

/// Values that are no parameters do not count.
pub(crate) proof fn lemma_count_results(values: Seq<ValueData>, results: Seq<ValueData>, ty: Type)
    requires
        forall|k: int| 0 <= k < results.len() ==> !(#[trigger] results[k] is Param),
    ensures
        count_params(values + results, ty) == count_params(values, ty),
    decreases results.len(),
{
    if results.len() == 0 {
        assert(values + results =~= values);
    } else {
        assert((values + results).drop_last() =~= values + results.drop_last());
        lemma_count_results(values, results.drop_last(), ty);
    }
}

/// After a parameter of a graph without detached values was split, no value
/// is detached.
pub(crate) proof fn lemma_split_param_settled(dfg: DfgView, param: Value, kind: ConcatKind)
    requires
        dfg.wf(),
        dfg.settled(),
        dfg.is_value(param),
        dfg.value(param) is Param,
    ensures
        split_param(dfg, param, kind).settled(),
{
    let after = split_param(dfg, param, kind);
    assert forall|v: Value| after.is_value(v) implies !(#[trigger] after.value(v)
        is Detached) by {
        if dfg.is_value(v) && v != param {
            assert(!(dfg.value(v) is Detached));
        }
    }
}

/// What the graph is after the parameter `param` was split: the new values
/// and what they are, the parameters of the block, the new concatenation,
/// what each value stands for, and the number of parameters of the type of
/// `param`, which is one less.
pub(crate) proof fn lemma_split_param(dfg: DfgView, param: Value, kind: ConcatKind)
    requires
        dfg.wf(),
        dfg.is_value(param),
        dfg.value(param) is Param,
        kind.spec_half_type(dfg.value_type(param)) is Some,
        split_param(dfg, param, kind).wf(),
    ensures
        ({
            let after = split_param(dfg, param, kind);
            let ty = dfg.value_type(param);
            let half = kind.spec_half_type(ty)->0;
            let ebb = dfg.value(param)->ebb;
            let num = dfg.value(param)->Param_num;
            let hi_num = dfg.ebb_params(ebb).len();
            let lo = dfg.next_value();
            let hi = Value((dfg.values.len() + 1) as usize);
            let result = Value((dfg.values.len() + 2) as usize);
            &&& after.values.len() == dfg.values.len() + 3
            &&& hi_num <= usize::MAX
            &&& after.insts == dfg.insts.push(InstView::binary(kind.spec_concat_opcode(), lo, hi))
            &&& after.results == dfg.results.push(seq![result])
            &&& after.params == dfg.params.update(
                ebb.0 as int,
                dfg.ebb_params(ebb).update(num as int, lo).push(hi),
            )
            &&& after.value(lo) == (ValueData::Param { ty: half, num: num, ebb: ebb })
            &&& after.value(hi) == (ValueData::Param { ty: half, num: hi_num as usize, ebb: ebb })
            &&& after.value(result) == (ValueData::Inst { ty: ty, num: 0, inst: dfg.next_inst() })
            &&& after.value(param) == (ValueData::Alias { ty: ty, original: result })
            &&& forall|v: Value|
                dfg.is_value(v) && v != param ==> #[trigger] after.value(v) == dfg.value(v)
            &&& keeps_types(dfg, after)
            &&& forall|v: Value| #[trigger]
                dfg.is_value(v) ==> after.resolve(v) == if dfg.resolve(v) == param {
                    result
                } else {
                    dfg.resolve(v)
                }
            &&& count_params(after.values, ty) + 1 == count_params(dfg.values, ty)
        }),
{
    let after = split_param(dfg, param, kind);
    let ty = dfg.value_type(param);
    let half = kind.spec_half_type(ty)->0;
    let ebb = dfg.value(param)->ebb;
    let num = dfg.value(param)->Param_num;
    let lo = dfg.next_value();
    let hi = Value((dfg.values.len() + 1) as usize);
    let result = Value((dfg.values.len() + 2) as usize);
    let replaced = dfg.replace_ebb_param(param, half);
    let appended = replaced.append_ebb_param(ebb, half);
    let concat = InstView::binary(kind.spec_concat_opcode(), lo, hi);
    let made = appended.make_inst(concat, ty);
    assert(dfg.value_wf(param));
    assert(after.values.len() == dfg.values.len() + 3);
    assert(dfg.ebb_params(ebb).len() <= usize::MAX) by {
        let hi_num = dfg.ebb_params(ebb).len() as int;
        assert(after.ebb_wf(ebb));
        assert(after.ebb_params(ebb)[hi_num] == hi);
        assert(after.value(hi)->Param_num == hi_num);
    }
    assert(replaced.next_value() == hi);
    assert(appended.next_value() == result);
    assert(made.values =~= appended.values.push(
        ValueData::Inst { ty: ty, num: 0, inst: dfg.next_inst() },
    ));
    assert(made.results[dfg.results.len() as int] =~= seq![result]);
    assert(made.results =~= dfg.results.push(seq![result]));
    assert(after.params =~= dfg.params.update(
        ebb.0 as int,
        dfg.ebb_params(ebb).update(num as int, lo).push(hi),
    ));
    dfg.lemma_replace_ebb_param_wf(param, half);
    replaced.lemma_append_ebb_param_wf(ebb, half);
    assert(appended.accepts(concat));
    appended.lemma_make_inst_wf(concat, ty);
    assert(made.value(result) is Inst);
    assert(made.resolve(result) == result);
    ty.lemma_half_differs();

    assert forall|v: Value| #[trigger] dfg.is_value(v) implies after.resolve(v) == if dfg.resolve(
        v,
    ) == param {
        result
    } else {
        dfg.resolve(v)
    } by {
        dfg.lemma_resolve(v);
        dfg.lemma_resolve_same(made, v);
        made.lemma_resolve_after_alias(param, result, v);
    }

    // The parameters of the type of `param`: `param` is no parameter any more, and the
    // new values are of the half type or results.
    let detached = dfg.values.update(param.0 as int, ValueData::Detached { ty: ty });
    let with_lo = detached.push(ValueData::Param { ty: half, num: num, ebb: ebb });
    let with_hi = with_lo.push(
        ValueData::Param { ty: half, num: dfg.ebb_params(ebb).len() as usize, ebb: ebb },
    );
    let with_result = with_hi.push(ValueData::Inst { ty: ty, num: 0, inst: dfg.next_inst() });
    lemma_count_update(dfg.values, param.0 as int, ValueData::Detached { ty: ty }, ty);
    lemma_count_push(detached, ValueData::Param { ty: half, num: num, ebb: ebb }, ty);
    lemma_count_push(
        with_lo,
        ValueData::Param { ty: half, num: dfg.ebb_params(ebb).len() as usize, ebb: ebb },
        ty,
    );
    lemma_count_push(with_hi, ValueData::Inst { ty: ty, num: 0, inst: dfg.next_inst() }, ty);
    assert(made.values =~= with_result);
    lemma_count_update(
        with_result,
        param.0 as int,
        ValueData::Alias { ty: ty, original: result },
        ty,
    );
    assert(after.values =~= with_result.update(
        param.0 as int,
        ValueData::Alias { ty: ty, original: result },
    ));
}

/// What holds after a value of a type that can be halved was split: the
/// halves are values of the half type, the concatenations are typed, the
/// graph has grown, and where a parameter was split there is one parameter
/// less of the type of the value.
pub(crate) proof fn lemma_split_graph(dfg: DfgView, layout: LayoutView, value: Value, kind: ConcatKind)
    requires
        function_wf(dfg, layout),
        dfg.is_value(value),
        kind.spec_half_type(dfg.value_type(value)) is Some,
        concats_typed(dfg),
        split_graph(dfg, layout, value, kind).wf(),
    ensures
        ({
            let after = split_graph(dfg, layout, value, kind);
            let halves = split_halves(dfg, layout, value, kind);
            let ty = dfg.value_type(value);
            let half = kind.spec_half_type(ty)->0;
            &&& after.is_value(halves.0)
            &&& after.is_value(halves.1)
            &&& after.value_type(halves.0) == half
            &&& after.value_type(halves.1) == half
            &&& concats_typed(after)
            &&& splits_typed(dfg) ==> splits_typed(after)
            &&& grows(dfg, after)
            &&& count_params(after.values, ty) + (if split_case(dfg, layout, value, kind)
                is Param {
                1nat
            } else {
                0nat
            }) == count_params(dfg.values, ty)
        }),
{
    let after = split_graph(dfg, layout, value, kind);
    let ty = dfg.value_type(value);
    let half = kind.spec_half_type(ty)->0;
    let v = dfg.resolve(value);
    dfg.lemma_resolve(value);
    assert(dfg.value_wf(v));
    match split_case(dfg, layout, value, kind) {
        SplitCase::Reuse(lo, hi) => {
            let inst = dfg.value(v)->inst;
            assert(dfg.inst_wf(inst));
            assert(concat_typed(dfg, inst, kind));
            assert(dfg.inst(inst).args[0] == lo);
            assert(dfg.inst(inst).args[1] == hi);
        },
        SplitCase::Param(ebb, num) => {
            lemma_split_param(dfg, v, kind);
            let lo = dfg.next_value();
            let hi = Value((dfg.values.len() + 1) as usize);
            let result = Value((dfg.values.len() + 2) as usize);
            let made = dfg.next_inst();
            assert forall|inst: Inst, k: ConcatKind|
                after.is_inst(inst) && after.inst(inst).opcode
                    == k.spec_concat_opcode() implies #[trigger] concat_typed(after, inst, k) by {
                if dfg.is_inst(inst) {
                    assert(concat_typed(dfg, inst, k));
                    assert(dfg.inst_wf(inst));
                    let r = dfg.inst_results(inst)[0];
                    assert(dfg.is_value(r));
                    assert(dfg.value(r) is Inst);
                    assert(dfg.is_value(dfg.inst(inst).args[0]));
                    assert(dfg.is_value(dfg.inst(inst).args[1]));
                } else {
                    assert(inst == made);
                    assert(k == kind);
                }
            }
            if splits_typed(dfg) {
                assert forall|inst: Inst, k: ConcatKind|
                    after.is_inst(inst) && after.inst(inst).opcode
                        == k.spec_split_opcode() implies #[trigger] split_typed(
                    after,
                    inst,
                    k,
                ) by {
                    assert(dfg.is_inst(inst));
                    assert(split_typed(dfg, inst, k));
                    assert(dfg.inst_wf(inst));
                    assert(dfg.is_value(dfg.inst_results(inst)[0]));
                    assert(dfg.is_value(dfg.inst_results(inst)[1]));
                    assert(dfg.is_value(dfg.inst(inst).args[0]));
                }
            }
            assert forall|x: Value|
                dfg.is_value(x) && dfg.value(#[trigger] dfg.resolve(x)) is Inst implies after.resolve(
                x,
            ) == dfg.resolve(x) by {}
            assert forall|x: Value, y: Value|
                #![trigger dfg.resolve(x), dfg.resolve(y)]
                dfg.is_value(x) && dfg.is_value(y) && dfg.resolve(x) == dfg.resolve(
                    y,
                ) implies after.resolve(x) == after.resolve(y) by {}
            assert forall|e: Ebb| #[trigger] dfg.is_ebb(e) implies dfg.ebb_params(e).len()
                <= after.ebb_params(e).len() by {}
        },
        SplitCase::Generic => {
            let data = InstView::unary(kind.spec_split_opcode(), v);
            let made = dfg.next_inst();
            assert(after.values.len() == dfg.values.len() + 2);
            assert(after.inst_wf(made));
            assert(after.inst_results(made)[0] == dfg.next_value());
            assert(after.inst_results(made)[1] == Value((dfg.values.len() + 1) as usize));
            assert forall|inst: Inst, k: ConcatKind|
                after.is_inst(inst) && after.inst(inst).opcode
                    == k.spec_concat_opcode() implies #[trigger] concat_typed(after, inst, k) by {
                if dfg.is_inst(inst) {
                    assert(concat_typed(dfg, inst, k));
                    assert(dfg.inst_wf(inst));
                    let r = dfg.inst_results(inst)[0];
                    assert(dfg.is_value(r));
                    assert(dfg.is_value(dfg.inst(inst).args[0]));
                    assert(dfg.is_value(dfg.inst(inst).args[1]));
                } else {
                    assert(inst == made);
                }
            }
            if splits_typed(dfg) {
                assert forall|inst: Inst, k: ConcatKind|
                    after.is_inst(inst) && after.inst(inst).opcode
                        == k.spec_split_opcode() implies #[trigger] split_typed(
                    after,
                    inst,
                    k,
                ) by {
                    if dfg.is_inst(inst) {
                        assert(split_typed(dfg, inst, k));
                        assert(dfg.inst_wf(inst));
                        assert(dfg.is_value(dfg.inst_results(inst)[0]));
                        assert(dfg.is_value(dfg.inst_results(inst)[1]));
                        assert(dfg.is_value(dfg.inst(inst).args[0]));
                    } else {
                        assert(inst == made);
                        assert(k == kind);
                        assert(after.value_type(v) == dfg.value_type(v));
                    }
                }
            }
            assert forall|x: Value|
                dfg.is_value(x) && dfg.value(#[trigger] dfg.resolve(x)) is Inst implies after.resolve(
                x,
            ) == dfg.resolve(x) by {
                dfg.lemma_resolve_same(after, x);
            }
            assert forall|x: Value, y: Value|
                #![trigger dfg.resolve(x), dfg.resolve(y)]
                dfg.is_value(x) && dfg.is_value(y) && dfg.resolve(x) == dfg.resolve(
                    y,
                ) implies after.resolve(x) == after.resolve(y) by {
                dfg.lemma_resolve_same(after, x);
                dfg.lemma_resolve_same(after, y);
            }
            lemma_count_results(
                dfg.values,
                Seq::new(
                    2,
                    |k: int| ValueData::Inst { ty: half, num: k as usize, inst: dfg.next_inst() },
                ),
                ty,
            );
        },
    }
}

/// The instruction `inst` is one that splitting in the way `kind` adds: a
/// concatenation or a split, which stands in the layout.
pub open spec fn added_by_split(
    dfg: DfgView,
    layout: LayoutView,
    kind: ConcatKind,
    inst: Inst,
) -> bool {
    &&& layout.is_inst_inserted(inst)
    &&& dfg.inst(inst).opcode == kind.spec_concat_opcode() || dfg.inst(inst).opcode
        == kind.spec_split_opcode()
}

/// The function `dfg` with `layout` has come out of the function `origin`
/// with `origin_layout` by splitting values in the way `kind`: the graph has
/// grown and the layout has its old instructions in their order, the
/// instructions that were added are concatenations and splits and stand in
/// the layout where `placed` says, only branches that `cfg` records have
/// new arguments, and splits are typed if they were.
pub open spec fn split_from(
    origin: DfgView,
    origin_layout: LayoutView,
    dfg: DfgView,
    layout: LayoutView,
    cfg: Seq<Seq<(Ebb, Inst)>>,
    kind: ConcatKind,
) -> bool {
    &&& grows(origin, dfg)
    &&& origin_layout.extended_by(layout)
    &&& forall|i: Inst| #[trigger]
        dfg.is_inst(i) && !origin.is_inst(i) ==> added_by_split(dfg, layout, kind, i)
    &&& placed(origin, origin_layout, dfg, layout, kind)
    &&& forall|i: Inst| #[trigger]
        origin.is_inst(i) && !is_pred(cfg, origin.inst(i).destination->0, i) ==> dfg.inst(i)
            == origin.inst(i)
    &&& splits_typed(origin) ==> splits_typed(dfg)
}

/// The layout after a value was split extends the layout: it has the same
/// blocks and instructions, in the same order, and at most one instruction
/// more.
pub(crate) proof fn lemma_layout_after_split(
    dfg: DfgView,
    cursor: CursorView,
    value: Value,
    kind: ConcatKind,
)
    requires
        function_wf(dfg, cursor.layout),
        cursor.wf(),
        can_split(dfg, cursor, value, kind),
    ensures
        cursor.layout.extended_by(split_cursor(dfg, cursor, value, kind).layout),
        forall|i: Inst| #[trigger]
            split_graph(dfg, cursor.layout, value, kind).is_inst(i) && !dfg.is_inst(i)
                ==> added_by_split(
                split_graph(dfg, cursor.layout, value, kind),
                split_cursor(dfg, cursor, value, kind).layout,
                kind,
                i,
            ),
{
    dfg.lemma_resolve(value);
    match split_case(dfg, cursor.layout, value, kind) {
        SplitCase::Reuse(_, _) => {},
        SplitCase::Param(ebb, _) => {
            assert(dfg.value_wf(dfg.resolve(value)));
            let top = cursor.layout.position_after(CursorPosition::Before(ebb));
            cursor.layout.lemma_position_after(CursorPosition::Before(ebb));
            cursor.layout.lemma_insert_at_position(top, dfg.next_inst());
        },
        SplitCase::Generic => {
            cursor.layout.lemma_insert_at_position(cursor.pos, dfg.next_inst());
        },
    }
}

/// After a value was split, its halves put together are the value.
pub(crate) proof fn lemma_is_split(dfg: DfgView, layout: LayoutView, value: Value, kind: ConcatKind)
    requires
        dfg.wf(),
        dfg.settled(),
        dfg.is_value(value),
        split_graph(dfg, layout, value, kind).wf(),
        !(split_case(dfg, layout, value, kind) is Reuse) ==> kind.spec_half_type(
            dfg.value_type(value),
        ) is Some,
    ensures
        is_split(
            split_graph(dfg, layout, value, kind),
            value,
            kind,
            split_halves(dfg, layout, value, kind),
        ),
        !(split_case(dfg, layout, value, kind) is Generic) ==> split_case(
            split_graph(dfg, layout, value, kind),
            layout,
            value,
            kind,
        ) == SplitCase::Reuse(
            split_halves(dfg, layout, value, kind).0,
            split_halves(dfg, layout, value, kind).1,
        ),
{
    let after = split_graph(dfg, layout, value, kind);
    let v = dfg.resolve(value);
    dfg.lemma_resolve(value);
    assert(dfg.value_wf(v));
    match split_case(dfg, layout, value, kind) {
        SplitCase::Reuse(lo, hi) => {
            let inst = dfg.value(v)->inst;
            assert(dfg.inst_wf(inst));
            assert(dfg.inst(inst) =~= InstView::binary(kind.spec_concat_opcode(), lo, hi));
        },
        SplitCase::Param(_, _) => {
            lemma_split_param(dfg, v, kind);
        },
        SplitCase::Generic => {
            let made = dfg.next_inst();
            dfg.lemma_resolve_same(after, value);
            dfg.lemma_resolve_same(after, v);
            assert(after.is_inst(made));
            assert(after.inst(made) == InstView::unary(kind.spec_split_opcode(), v));
            assert(after.inst(made).args[0] == v);
            assert(after.inst_results(made) =~= seq![
                dfg.next_value(),
                Value((dfg.values.len() + 1) as usize),
            ]);
        },
    }
}

/// The halves of a value stay its halves when the graph grows.
pub(crate) proof fn lemma_is_split_grown(
    before: DfgView,
    after: DfgView,
    value: Value,
    kind: ConcatKind,
    halves: (Value, Value),
)
    requires
        before.wf(),
        before.is_value(value),
        grows(before, after),
        is_split(before, value, kind, halves),
    ensures
        is_split(after, value, kind, halves),
{
    before.lemma_resolve(value);
    let v = before.resolve(value);
    assert(before.value_wf(v));
    if before.value(v) is Inst && before.inst(before.value(v)->inst) == InstView::binary(
        kind.spec_concat_opcode(),
        halves.0,
        halves.1,
    ) {
        let inst = before.value(v)->inst;
        assert(before.is_inst(inst));
        assert(before.inst_wf(inst));
    } else {
        let inst = choose|inst: Inst|
            #[trigger] before.is_inst(inst) && before.inst(inst).opcode
                == kind.spec_split_opcode() && before.resolve(before.inst(inst).args[0]) == v
                && before.inst_results(inst) == seq![halves.0, halves.1];
        assert(before.inst_wf(inst));
        let arg = before.inst(inst).args[0];
        assert(before.is_value(arg));
        assert(before.resolve(arg) == before.resolve(value));
        assert(after.resolve(arg) == after.resolve(value));
        assert(after.is_inst(inst));
    }
}

/// A value that a concatenation defines is still defined by it when the
/// graph grows: a later split of the value finds the same halves.
pub(crate) proof fn lemma_reuse_grown(
    before: DfgView,
    after: DfgView,
    layout: LayoutView,
    grown: LayoutView,
    value: Value,
    kind: ConcatKind,
    halves: (Value, Value),
)
    requires
        before.wf(),
        before.is_value(value),
        grows(before, after),
        split_case(before, layout, value, kind) == SplitCase::Reuse(halves.0, halves.1),
    ensures
        split_case(after, grown, value, kind) == SplitCase::Reuse(halves.0, halves.1),
{
    before.lemma_resolve(value);
    let v = before.resolve(value);
    assert(before.value_wf(v));
    let inst = before.value(v)->inst;
    assert(before.is_inst(inst));
    assert(before.inst_wf(inst));
}

} // verus!
