use cretonne::ir::dfg::{DataFlowGraph, ValueDef};
use cretonne::ir::entities::{Ebb, Inst, Value};
use cretonne::ir::instructions::{InstructionData, Opcode};
use cretonne::ir::types::Type;
use cretonne::legalizer::split::{resolve_splits, simplify_branch_arguments};

fn i32t() -> Type {
    Type::int_with_bits(32)
}

fn i64t() -> Type {
    Type::int_with_bits(64)
}

fn nullary(dfg: &mut DataFlowGraph, ty: Type) -> Value {
    let inst = dfg.make_inst(InstructionData::Nullary { opcode: Opcode::Iconst }, ty);
    dfg.first_result(inst)
}

fn binary(dfg: &mut DataFlowGraph, opcode: Opcode, ty: Type, a: Value, b: Value) -> Value {
    let inst = dfg.make_inst(InstructionData::Binary { opcode, args: [a, b] }, ty);
    dfg.first_result(inst)
}

fn split(dfg: &mut DataFlowGraph, opcode: Opcode, ty: Type, arg: Value) -> (Value, Value) {
    let inst = dfg.make_inst(InstructionData::Unary { opcode, arg }, ty);
    let results = dfg.inst_results(inst);
    (results[0], results[1])
}

fn args_of(dfg: &DataFlowGraph, inst: Inst) -> Vec<Value> {
    (0..dfg.num_inst_args(inst)).map(|k| dfg.inst_arg(inst, k)).collect()
}

#[test]
fn split_of_a_concatenation_resolves_to_the_operands() {
    // v10 = iconcat v1, v2; v11, v12 = isplit v10.
    let mut dfg = DataFlowGraph::new();
    let v1 = nullary(&mut dfg, i32t());
    let v2 = nullary(&mut dfg, i32t());
    let v10 = binary(&mut dfg, Opcode::Iconcat, i64t(), v1, v2);
    let (v11, v12) = split(&mut dfg, Opcode::Isplit, i32t(), v10);
    assert_eq!(resolve_splits(&dfg, v11), v1);
    assert_eq!(resolve_splits(&dfg, v12), v2);
    // Values that no split defines resolve to themselves.
    assert_eq!(resolve_splits(&dfg, v1), v1);
    assert_eq!(resolve_splits(&dfg, v10), v10);
}

#[test]
fn vector_split_of_a_vector_concatenation_resolves_to_the_operands() {
    let mut dfg = DataFlowGraph::new();
    let half = i32t().with_lanes(2);
    let a = nullary(&mut dfg, half);
    let b = nullary(&mut dfg, half);
    let ab = binary(&mut dfg, Opcode::Vconcat, i32t().with_lanes(4), a, b);
    let (lo, hi) = split(&mut dfg, Opcode::Vsplit, half, ab);
    assert_eq!(resolve_splits(&dfg, lo), a);
    assert_eq!(resolve_splits(&dfg, hi), b);
}

#[test]
fn split_of_another_value_is_not_resolved() {
    let mut dfg = DataFlowGraph::new();
    let c = nullary(&mut dfg, i64t());
    let (lo, hi) = split(&mut dfg, Opcode::Isplit, i32t(), c);
    assert_eq!(resolve_splits(&dfg, lo), lo);
    assert_eq!(resolve_splits(&dfg, hi), hi);

    // A split of a sum of two values: the operand is a result, but of no concatenation.
    let sum = binary(&mut dfg, Opcode::Iadd, i64t(), c, c);
    let (slo, shi) = split(&mut dfg, Opcode::Isplit, i32t(), sum);
    assert_eq!(resolve_splits(&dfg, slo), slo);
    assert_eq!(resolve_splits(&dfg, shi), shi);
}

#[test]
fn a_split_and_a_concatenation_of_different_kinds_do_not_cancel() {
    // An integer split of a vector concatenation is not the inverse of it.
    let mut dfg = DataFlowGraph::new();
    let half = i64t().with_lanes(2);
    let a = nullary(&mut dfg, half);
    let b = nullary(&mut dfg, half);
    let ab = binary(&mut dfg, Opcode::Vconcat, i64t().with_lanes(4), a, b);
    let (lo, hi) = split(&mut dfg, Opcode::Isplit, i32t().with_lanes(4), ab);
    assert_eq!(resolve_splits(&dfg, lo), lo);
    assert_eq!(resolve_splits(&dfg, hi), hi);
}

#[test]
fn splits_are_resolved_through_aliases_and_block_parameters_are_kept() {
    let mut dfg = DataFlowGraph::new();
    let ebb = dfg.make_ebb();
    let p = dfg.append_ebb_param(ebb, i64t());
    assert_eq!(resolve_splits(&dfg, p), p);

    // Split the parameter by hand: `p` becomes an alias of a concatenation.
    let lo = dfg.replace_ebb_param(p, i32t());
    let hi = dfg.append_ebb_param(ebb, i32t());
    let whole = binary(&mut dfg, Opcode::Iconcat, i64t(), lo, hi);
    dfg.change_to_alias(p, whole);
    assert_eq!(dfg.value_def(p), ValueDef::Res(Inst::new(0), 0));
    // An alias resolves to what it stands for.
    assert_eq!(resolve_splits(&dfg, p), whole);

    // A split of the alias finds the concatenation behind it.
    let (slo, shi) = split(&mut dfg, Opcode::Isplit, i32t(), p);
    assert_eq!(resolve_splits(&dfg, slo), lo);
    assert_eq!(resolve_splits(&dfg, shi), hi);
    assert_eq!(resolve_splits(&dfg, lo), lo);
}

#[test]
fn branch_arguments_are_simplified_in_place() {
    let mut dfg = DataFlowGraph::new();
    let ebb = dfg.make_ebb();
    let target = Ebb::new(ebb.index());
    let v1 = nullary(&mut dfg, i32t());
    let v2 = nullary(&mut dfg, i32t());
    let v10 = binary(&mut dfg, Opcode::Iconcat, i64t(), v1, v2);
    let (v11, v12) = split(&mut dfg, Opcode::Isplit, i32t(), v10);
    let other = nullary(&mut dfg, i64t());
    let (o1, o2) = split(&mut dfg, Opcode::Isplit, i32t(), other);
    let cond = nullary(&mut dfg, i32t());
    let branch = dfg.make_inst(
        InstructionData::Branch {
            opcode: Opcode::Brnz,
            destination: target,
            args: vec![cond, v11, o1, v12, o2, v12, v10],
        },
        Type::boolean(),
    );
    let insts = dfg.num_insts();
    let values = dfg.num_values();

    simplify_branch_arguments(&mut dfg, branch);

    assert_eq!(args_of(&dfg, branch), vec![cond, v1, o1, v2, o2, v2, v10]);
    assert_eq!(dfg.opcode(branch), Opcode::Brnz);
    assert_eq!(dfg.inst_data(branch).branch_destination(), Some(target));
    assert_eq!(dfg.num_insts(), insts);
    assert_eq!(dfg.num_values(), values);
    // The split is still there, with its operand.
    assert_eq!(args_of(&dfg, Inst::new(3)), vec![v10]);

    // Simplifying again changes nothing.
    simplify_branch_arguments(&mut dfg, branch);
    assert_eq!(args_of(&dfg, branch), vec![cond, v1, o1, v2, o2, v2, v10]);
}

#[test]
fn a_branch_without_arguments_is_left_alone() {
    let mut dfg = DataFlowGraph::new();
    let ebb = dfg.make_ebb();
    let jump = dfg.make_inst(
        InstructionData::Branch { opcode: Opcode::Jump, destination: ebb, args: vec![] },
        Type::boolean(),
    );
    simplify_branch_arguments(&mut dfg, jump);
    assert_eq!(args_of(&dfg, jump), vec![]);
}
