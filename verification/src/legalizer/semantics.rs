//! What splitting and concatenating compute, and why the halves of a split
//! value stand for the value.
//!
//! The contents of a value are its lanes, each a natural number. Splitting an
//! integer gives the low and the high bits of every lane; splitting a vector
//! gives its first and its second half of lanes. Concatenating is the
//! inverse of splitting in both ways.
//!
//! A graph says how values are computed from each other. An assignment of
//! contents to the values of a graph agrees with the graph when every alias
//! has the contents of its original and every split and concatenation has
//! the contents that its operands give. Under every such assignment, the
//! two halves that the legalizer returns for a value concatenate to the
//! contents of the value.

use crate::ir::dfg::{DfgView, ValueData};
use crate::ir::entities::{Inst, Value};
use crate::ir::instructions::{InstView, Opcode};
use crate::ir::types::Type;
use crate::legalizer::consistency::{concat_typed, concats_typed, split_typed, splits_typed};
use crate::legalizer::split::{concat_of_split, is_split, resolved_split, ConcatKind};
use vstd::arithmetic::div_mod::{lemma_fundamental_div_mod, lemma_fundamental_div_mod_converse};
use vstd::arithmetic::power2::{lemma_pow2_pos, pow2};
use vstd::prelude::*;

verus! {

/// The low half of `x`: for an integer, the low `half_bits` bits of every
/// lane; for a vector, the first half of the lanes.
pub open spec fn split_lo(kind: ConcatKind, x: Seq<nat>, half_bits: nat) -> Seq<nat> {
    match kind {
        ConcatKind::Integer => Seq::new(x.len(), |i: int| x[i] % pow2(half_bits)),
        ConcatKind::Vector => x.subrange(0, x.len() as int / 2),
    }
}

/// The high half of `x`: for an integer, the bits above the low `half_bits`
/// bits of every lane; for a vector, the second half of the lanes.
pub open spec fn split_hi(kind: ConcatKind, x: Seq<nat>, half_bits: nat) -> Seq<nat> {
    match kind {
        ConcatKind::Integer => Seq::new(x.len(), |i: int| x[i] / pow2(half_bits)),
        ConcatKind::Vector => x.subrange(x.len() as int / 2, x.len() as int),
    }
}

/// The concatenation of `lo` and `hi`: for integers, lane by lane, `hi`
/// above the `half_bits` bits of `lo`; for vectors, the lanes of `lo` and
/// then those of `hi`.
pub open spec fn concat(kind: ConcatKind, lo: Seq<nat>, hi: Seq<nat>, half_bits: nat) -> Seq<
    nat,
> {
    match kind {
        ConcatKind::Integer => Seq::new(lo.len(), |i: int| lo[i] + hi[i] * pow2(half_bits)),
        ConcatKind::Vector => lo + hi,
    }
}

/// The contents `x` are contents of the type `ty`: one number for each
/// lane, each of the width of a lane.
pub open spec fn fits(x: Seq<nat>, ty: Type) -> bool {
    &&& x.len() == ty.lanes
    &&& forall|i: int| 0 <= i < x.len() ==> #[trigger] x[i] < pow2(ty.lane_bits as nat)
}

/// Round trip: the halves of a split, concatenated, are what was split.
pub proof fn lemma_concat_of_split(kind: ConcatKind, x: Seq<nat>, half_bits: nat)
    ensures
        concat(kind, split_lo(kind, x, half_bits), split_hi(kind, x, half_bits), half_bits) == x,
{
    let lo = split_lo(kind, x, half_bits);
    let hi = split_hi(kind, x, half_bits);
    match kind {
        ConcatKind::Integer => {
            let p = pow2(half_bits) as int;
            lemma_pow2_pos(half_bits);
            assert forall|i: int| 0 <= i < x.len() implies lo[i] + hi[i] * p == x[i] by {
                lemma_fundamental_div_mod(x[i] as int, p);
                assert(p * (x[i] as int / p) == (x[i] as int / p) * p) by (nonlinear_arith);
            }
            assert(concat(kind, lo, hi, half_bits) =~= x);
        },
        ConcatKind::Vector => {
            assert(concat(kind, lo, hi, half_bits) =~= x);
        },
    }
}

/// The halves of a concatenation are what was concatenated, where the two
/// have the same number of lanes and, for integers, the low half has no more
/// than `half_bits` bits in a lane.
pub proof fn lemma_split_of_concat(kind: ConcatKind, lo: Seq<nat>, hi: Seq<nat>, half_bits: nat)
    requires
        lo.len() == hi.len(),
        kind == ConcatKind::Integer ==> forall|i: int|
            0 <= i < lo.len() ==> #[trigger] lo[i] < pow2(half_bits),
    ensures
        split_lo(kind, concat(kind, lo, hi, half_bits), half_bits) == lo,
        split_hi(kind, concat(kind, lo, hi, half_bits), half_bits) == hi,
{
    let x = concat(kind, lo, hi, half_bits);
    match kind {
        ConcatKind::Integer => {
            let p = pow2(half_bits) as int;
            lemma_pow2_pos(half_bits);
            assert forall|i: int| 0 <= i < lo.len() implies x[i] % pow2(half_bits) == lo[i]
                && x[i] / pow2(half_bits) == hi[i] by {
                lemma_fundamental_div_mod_converse(x[i] as int, p, hi[i] as int, lo[i] as int);
            }
            assert(split_lo(kind, x, half_bits) =~= lo);
            assert(split_hi(kind, x, half_bits) =~= hi);
        },
        ConcatKind::Vector => {
            assert(split_lo(kind, x, half_bits) =~= lo);
            assert(split_hi(kind, x, half_bits) =~= hi);
        },
    }
}

/// The assignment `env` of contents to values agrees with the graph: every
/// value has the contents of the value it stands for, the result of a
/// concatenation is the concatenation of its operands, and the results of a
/// split are the halves of its operand.
pub open spec fn agrees(dfg: DfgView, env: Map<Value, Seq<nat>>) -> bool {
    &&& forall|v: Value| dfg.is_value(v) ==> #[trigger] env[v] == env[dfg.resolve(v)]
    &&& forall|inst: Inst, kind: ConcatKind|
        dfg.is_inst(inst) && dfg.inst(inst).opcode == kind.spec_concat_opcode()
            ==> #[trigger] concat_agrees(dfg, env, inst, kind)
    &&& forall|inst: Inst, kind: ConcatKind|
        dfg.is_inst(inst) && dfg.inst(inst).opcode == kind.spec_split_opcode()
            ==> #[trigger] split_agrees(dfg, env, inst, kind)
}

/// The result of the concatenation `inst` is the concatenation of its
/// operands.
pub open spec fn concat_agrees(
    dfg: DfgView,
    env: Map<Value, Seq<nat>>,
    inst: Inst,
    kind: ConcatKind,
) -> bool {
    let lo = dfg.inst(inst).args[0];
    let hi = dfg.inst(inst).args[1];
    env[dfg.inst_results(inst)[0]] == concat(
        kind,
        env[lo],
        env[hi],
        dfg.value_type(lo).lane_bits as nat,
    )
}

/// The results of the split `inst` are the halves of its operand.
pub open spec fn split_agrees(
    dfg: DfgView,
    env: Map<Value, Seq<nat>>,
    inst: Inst,
    kind: ConcatKind,
) -> bool {
    let lo = dfg.inst_results(inst)[0];
    let hi = dfg.inst_results(inst)[1];
    let x = env[dfg.inst(inst).args[0]];
    &&& env[lo] == split_lo(kind, x, dfg.value_type(lo).lane_bits as nat)
    &&& env[hi] == split_hi(kind, x, dfg.value_type(lo).lane_bits as nat)
}

/// The halves of a split value stand for the value: under every assignment
/// of contents that agrees with the graph, the concatenation of the two
/// halves has the contents of the value.
pub proof fn lemma_halves_make_value(
    dfg: DfgView,
    env: Map<Value, Seq<nat>>,
    value: Value,
    kind: ConcatKind,
    halves: (Value, Value),
)
    requires
        dfg.wf(),
        dfg.is_value(value),
        agrees(dfg, env),
        is_split(dfg, value, kind, halves),
    ensures
        concat(kind, env[halves.0], env[halves.1], dfg.value_type(halves.0).lane_bits as nat)
            == env[value],
{
    let v = dfg.resolve(value);
    let half_bits = dfg.value_type(halves.0).lane_bits as nat;
    dfg.lemma_resolve(value);
    assert(dfg.value_wf(v));
    assert(env[value] == env[v]);
    if dfg.value(v) is Inst && dfg.inst(dfg.value(v)->inst) == InstView::binary(
        kind.spec_concat_opcode(),
        halves.0,
        halves.1,
    ) {
        let inst = dfg.value(v)->inst;
        assert(dfg.inst_wf(inst));
        assert(concat_agrees(dfg, env, inst, kind));
    } else {
        let inst = choose|inst: Inst|
            #[trigger] dfg.is_inst(inst) && dfg.inst(inst).opcode == kind.spec_split_opcode()
                && dfg.resolve(dfg.inst(inst).args[0]) == v && dfg.inst_results(inst) == seq![
                halves.0,
                halves.1,
            ];
        let arg = dfg.inst(inst).args[0];
        assert(dfg.inst_wf(inst));
        assert(dfg.is_value(arg));
        assert(env[arg] == env[v]);
        assert(split_agrees(dfg, env, inst, kind));
        assert(dfg.inst_results(inst)[0] == halves.0);
        assert(dfg.inst_results(inst)[1] == halves.1);
        lemma_concat_of_split(kind, env[arg], half_bits);
    }
}

/// Every value has contents of its type.
pub open spec fn typed(dfg: DfgView, env: Map<Value, Seq<nat>>) -> bool {
    forall|v: Value| dfg.is_value(v) ==> fits(#[trigger] env[v], dfg.value_type(v))
}

/// Stripping a chain of a concatenation and a split keeps the contents:
/// under every typed assignment of contents that agrees with a graph whose
/// splits and concatenations are typed, the simpler value that
/// `resolved_split` gives has the contents of the value.
pub proof fn lemma_resolved_split_agrees(dfg: DfgView, env: Map<Value, Seq<nat>>, value: Value)
    requires
        dfg.wf(),
        dfg.is_value(value),
        agrees(dfg, env),
        typed(dfg, env),
        concats_typed(dfg),
        splits_typed(dfg),
    ensures
        env[resolved_split(dfg, value)] == env[value],
{
    let v = dfg.resolve(value);
    dfg.lemma_resolve(value);
    assert(dfg.value_wf(v));
    assert(env[value] == env[v]);
    if let ValueData::Inst { inst: split, num, .. } = dfg.value(v) {
        assert(dfg.inst_wf(split));
        if let Some(concat_opc) = concat_of_split(dfg.inst(split).opcode) {
            let kind = if dfg.inst(split).opcode == Opcode::Isplit {
                ConcatKind::Integer
            } else {
                ConcatKind::Vector
            };
            let arg = dfg.inst(split).args[0];
            let whole = dfg.resolve(arg);
            assert(dfg.is_value(arg));
            dfg.lemma_resolve(arg);
            assert(dfg.value_wf(whole));
            assert(env[arg] == env[whole]);
            if let ValueData::Inst { inst: made, .. } = dfg.value(whole) {
                if dfg.inst(made).opcode == concat_opc {
                    assert(dfg.inst_wf(made));
                    let lo = dfg.inst(made).args[0];
                    let hi = dfg.inst(made).args[1];
                    assert(split_agrees(dfg, env, split, kind));
                    assert(concat_agrees(dfg, env, made, kind));
                    assert(split_typed(dfg, split, kind));
                    assert(concat_typed(dfg, made, kind));
                    assert(dfg.inst_results(made)[0] == whole);
                    let half_bits = dfg.value_type(lo).lane_bits as nat;
                    assert(dfg.value_type(dfg.inst_results(split)[0]).lane_bits == half_bits);
                    assert(dfg.is_value(lo) && dfg.is_value(hi));
                    assert(fits(env[lo], dfg.value_type(lo)));
                    assert(fits(env[hi], dfg.value_type(hi)));
                    lemma_split_of_concat(kind, env[lo], env[hi], half_bits);
                }
            }
        }
    }
}

} // verus!
