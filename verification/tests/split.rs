use cretonne::flowgraph::ControlFlowGraph;
use cretonne::ir::dfg::{DataFlowGraph, ValueData, ValueDef};
use cretonne::ir::entities::{Ebb, Inst, Value};
use cretonne::ir::instructions::{InstructionData, Opcode};
use cretonne::ir::layout::{Cursor, CursorPosition, Layout};
use cretonne::ir::types::Type;
use cretonne::legalizer::split::{
    add_repair, isplit, split_any, split_value, vsplit, ConcatKind, Repair,
};

fn i32t() -> Type {
    Type::int_with_bits(32)
}

fn i64t() -> Type {
    Type::int_with_bits(64)
}

/// Create as many blocks as asked for, in the graph and in the layout.
fn blocks(dfg: &mut DataFlowGraph, layout: &mut Layout, count: usize) -> Vec<Ebb> {
    let mut ebbs = Vec::new();
    for _ in 0..count {
        let ebb = dfg.make_ebb();
        layout.append_ebb(ebb);
        ebbs.push(ebb);
    }
    ebbs
}

fn iconst(dfg: &mut DataFlowGraph, layout: &mut Layout, ebb: Ebb, ty: Type) -> Value {
    let inst = dfg.make_inst(InstructionData::Nullary { opcode: Opcode::Iconst }, ty);
    layout.append_inst(inst, ebb);
    dfg.first_result(inst)
}

fn binary(
    dfg: &mut DataFlowGraph,
    layout: &mut Layout,
    ebb: Ebb,
    opcode: Opcode,
    ty: Type,
    a: Value,
    b: Value,
) -> Value {
    let inst = dfg.make_inst(InstructionData::Binary { opcode, args: [a, b] }, ty);
    layout.append_inst(inst, ebb);
    dfg.first_result(inst)
}

fn branch(
    dfg: &mut DataFlowGraph,
    layout: &mut Layout,
    cfg: &mut ControlFlowGraph,
    from: Ebb,
    opcode: Opcode,
    to: Ebb,
    args: Vec<Value>,
) -> Inst {
    let inst = dfg.make_inst(
        InstructionData::Branch { opcode, destination: to, args },
        Type::boolean(),
    );
    layout.append_inst(inst, from);
    cfg.add_edge(from, inst, to);
    inst
}

fn args_of(dfg: &DataFlowGraph, inst: Inst) -> Vec<Value> {
    (0..dfg.num_inst_args(inst)).map(|k| dfg.inst_arg(inst, k)).collect()
}

fn types_of(dfg: &DataFlowGraph, values: &[Value]) -> Vec<Type> {
    values.iter().map(|v| dfg.value_type(*v)).collect()
}

/// Every recorded branch passes one argument of the right type for each
/// parameter of its destination.
fn assert_consistent(dfg: &DataFlowGraph, cfg: &ControlFlowGraph) {
    for e in 0..cfg.num_ebbs() {
        let ebb = Ebb::new(e);
        let params = dfg.ebb_params(ebb).clone();
        for &(_, inst) in cfg.get_predecessors(ebb) {
            let fixed = dfg.opcode(inst).fixed_value_arguments();
            let args = args_of(dfg, inst);
            assert_eq!(args.len(), fixed + params.len());
            assert_eq!(types_of(dfg, &args[fixed..]), types_of(dfg, &params));
        }
    }
}

#[test]
fn concat_kind_opcodes_and_types() {
    assert_eq!(ConcatKind::Integer.concat_opcode(), Opcode::Iconcat);
    assert_eq!(ConcatKind::Integer.split_opcode(), Opcode::Isplit);
    assert_eq!(ConcatKind::Vector.concat_opcode(), Opcode::Vconcat);
    assert_eq!(ConcatKind::Vector.split_opcode(), Opcode::Vsplit);
    assert_eq!(ConcatKind::Integer.half_type(i64t()), Some(i32t()));
    assert_eq!(ConcatKind::Integer.half_type(Type::int_with_bits(8)), None);
    assert_eq!(ConcatKind::Vector.half_type(i32t().with_lanes(4)), Some(i32t().with_lanes(2)));
    assert_eq!(ConcatKind::Vector.half_type(i32t()), None);
}

#[test]
fn add_repair_pushes_the_task() {
    let mut repairs = vec![Repair {
        concat: ConcatKind::Vector,
        split_type: i32t(),
        ebb: Ebb::new(0),
        num: 0,
        hi_num: 1,
    }];
    add_repair(ConcatKind::Integer, i32t(), Ebb::new(3), 1, 4, &mut repairs);
    assert_eq!(repairs.len(), 2);
    assert_eq!(
        repairs[1],
        Repair { concat: ConcatKind::Integer, split_type: i32t(), ebb: Ebb::new(3), num: 1, hi_num: 4 }
    );
}

#[test]
fn split_of_a_concatenation_reuses_its_operands() {
    let mut dfg = DataFlowGraph::new();
    let mut layout = Layout::new();
    let ebbs = blocks(&mut dfg, &mut layout, 1);
    let cfg = ControlFlowGraph::with_ebbs(1);
    let a = iconst(&mut dfg, &mut layout, ebbs[0], i32t());
    let b = iconst(&mut dfg, &mut layout, ebbs[0], i32t());
    let v = binary(&mut dfg, &mut layout, ebbs[0], Opcode::Iconcat, i64t(), a, b);
    let last = iconst(&mut dfg, &mut layout, ebbs[0], i32t());
    let last_inst = match dfg.value_def(last) {
        ValueDef::Res(inst, _) => inst,
        ValueDef::Param(_, _) => unreachable!(),
    };

    let mut pos = Cursor::new(layout);
    pos.goto_inst(last_inst);
    let halves = isplit(&mut dfg, &cfg, &mut pos, v);
    assert_eq!(halves, (a, b));
    assert_eq!(dfg.num_insts(), 4);
    assert_eq!(dfg.num_values(), 4);
    assert_eq!(pos.position(), CursorPosition::At(last_inst));
    let layout = pos.into_layout();
    assert_eq!(layout.ebb_insts(ebbs[0]).len(), 4);
}

#[test]
fn split_of_a_concatenation_of_the_other_kind_is_a_new_split() {
    let mut dfg = DataFlowGraph::new();
    let mut layout = Layout::new();
    let ebbs = blocks(&mut dfg, &mut layout, 1);
    let cfg = ControlFlowGraph::with_ebbs(1);
    let half = i32t().with_lanes(2);
    let whole = i32t().with_lanes(4);
    let a = iconst(&mut dfg, &mut layout, ebbs[0], half);
    let b = iconst(&mut dfg, &mut layout, ebbs[0], half);
    let v = binary(&mut dfg, &mut layout, ebbs[0], Opcode::Vconcat, whole, a, b);
    let user = iconst(&mut dfg, &mut layout, ebbs[0], i32t());
    let user_inst = Inst::new(3);
    assert_eq!(dfg.value_def(user), ValueDef::Res(user_inst, 0));

    // The vector is a concatenation of vectors: `vsplit` finds the halves.
    let mut pos = Cursor::new(layout);
    pos.goto_inst(user_inst);
    assert_eq!(vsplit(&mut dfg, &cfg, &mut pos, v), (a, b));
    assert_eq!(dfg.num_insts(), 4);

    // `isplit` of an integer vector that a `vconcat` defines needs an instruction.
    let wide = i64t().with_lanes(4);
    let mut layout = pos.into_layout();
    let c = iconst(&mut dfg, &mut layout, ebbs[0], wide.half_vector().unwrap());
    let d = iconst(&mut dfg, &mut layout, ebbs[0], wide.half_vector().unwrap());
    let w = binary(&mut dfg, &mut layout, ebbs[0], Opcode::Vconcat, wide, c, d);
    let mut pos = Cursor::new(layout);
    pos.goto_inst(user_inst);
    let (lo, hi) = isplit(&mut dfg, &cfg, &mut pos, w);
    let split = Inst::new(7);
    assert_eq!(dfg.opcode(split), Opcode::Isplit);
    assert_eq!(args_of(&dfg, split), vec![w]);
    assert_eq!(dfg.inst_results(split), &vec![lo, hi]);
    assert_eq!(dfg.value_type(lo), i32t().with_lanes(4));
    assert_eq!(dfg.value_type(hi), i32t().with_lanes(4));
}

#[test]
fn split_of_an_instruction_result_inserts_a_split_at_the_cursor() {
    let mut dfg = DataFlowGraph::new();
    let mut layout = Layout::new();
    let ebbs = blocks(&mut dfg, &mut layout, 1);
    let cfg = ControlFlowGraph::with_ebbs(1);
    let v = iconst(&mut dfg, &mut layout, ebbs[0], i64t());
    let w = iconst(&mut dfg, &mut layout, ebbs[0], i64t());
    let user = binary(&mut dfg, &mut layout, ebbs[0], Opcode::Bxor, i64t(), v, w);
    assert_eq!(dfg.value_def(user), ValueDef::Res(Inst::new(2), 0));

    let mut pos = Cursor::new(layout);
    pos.goto_inst(Inst::new(2));
    let (lo, hi) = isplit(&mut dfg, &cfg, &mut pos, v);

    assert_eq!((lo, hi), (Value::new(3), Value::new(4)));
    assert_eq!(dfg.num_insts(), 4);
    let split = Inst::new(3);
    assert_eq!(dfg.opcode(split), Opcode::Isplit);
    assert_eq!(args_of(&dfg, split), vec![v]);
    assert_eq!(dfg.value_def(lo), ValueDef::Res(split, 0));
    assert_eq!(dfg.value_def(hi), ValueDef::Res(split, 1));
    assert_eq!(dfg.value_type(lo), i32t());
    assert_eq!(dfg.value_type(hi), i32t());
    assert_eq!(pos.position(), CursorPosition::At(Inst::new(2)));
    let layout = pos.into_layout();
    assert_eq!(
        layout.ebb_insts(ebbs[0]),
        &vec![Inst::new(0), Inst::new(1), split, Inst::new(2)]
    );
}

#[test]
fn split_at_the_end_of_a_block_appends_the_split() {
    let mut dfg = DataFlowGraph::new();
    let mut layout = Layout::new();
    let ebbs = blocks(&mut dfg, &mut layout, 1);
    let cfg = ControlFlowGraph::with_ebbs(1);
    let v = iconst(&mut dfg, &mut layout, ebbs[0], i32t().with_lanes(8));

    let mut pos = Cursor::new(layout);
    pos.set_position(CursorPosition::After(ebbs[0]));
    let (lo, hi) = vsplit(&mut dfg, &cfg, &mut pos, v);
    assert_eq!(dfg.opcode(Inst::new(1)), Opcode::Vsplit);
    assert_eq!(dfg.value_type(lo), i32t().with_lanes(4));
    assert_eq!(dfg.value_type(hi), i32t().with_lanes(4));
    assert_eq!(pos.position(), CursorPosition::After(ebbs[0]));
    assert_eq!(pos.into_layout().ebb_insts(ebbs[0]), &vec![Inst::new(0), Inst::new(1)]);
}

#[test]
fn split_of_an_entry_block_parameter_inserts_a_split() {
    let mut dfg = DataFlowGraph::new();
    let mut layout = Layout::new();
    let ebbs = blocks(&mut dfg, &mut layout, 1);
    let cfg = ControlFlowGraph::with_ebbs(1);
    let p = dfg.append_ebb_param(ebbs[0], i64t());
    let c = iconst(&mut dfg, &mut layout, ebbs[0], i64t());
    let user = binary(&mut dfg, &mut layout, ebbs[0], Opcode::Iadd, i64t(), p, c);
    assert_eq!(dfg.value_def(user), ValueDef::Res(Inst::new(1), 0));

    let mut pos = Cursor::new(layout);
    pos.goto_inst(Inst::new(1));
    let (lo, hi) = isplit(&mut dfg, &cfg, &mut pos, p);

    // The entry block keeps its parameter, which is the operand of a split instruction.
    assert_eq!(dfg.ebb_params(ebbs[0]), &vec![p]);
    assert_eq!(dfg.value_type(p), i64t());
    assert_eq!(dfg.value_def(p), ValueDef::Param(ebbs[0], 0));
    assert_eq!(dfg.opcode(Inst::new(2)), Opcode::Isplit);
    assert_eq!(args_of(&dfg, Inst::new(2)), vec![p]);
    assert_eq!(dfg.inst_results(Inst::new(2)), &vec![lo, hi]);
    assert_eq!(
        pos.into_layout().ebb_insts(ebbs[0]),
        &vec![Inst::new(0), Inst::new(2), Inst::new(1)]
    );
}

#[test]
fn split_of_a_block_parameter_splits_the_parameter_and_repairs_the_branch() {
    let mut dfg = DataFlowGraph::new();
    let mut layout = Layout::new();
    let mut cfg = ControlFlowGraph::with_ebbs(2);
    let ebbs = blocks(&mut dfg, &mut layout, 2);
    let other = dfg.append_ebb_param(ebbs[1], i32t());
    let p = dfg.append_ebb_param(ebbs[1], i64t());
    let c32 = iconst(&mut dfg, &mut layout, ebbs[0], i32t());
    let c64 = iconst(&mut dfg, &mut layout, ebbs[0], i64t());
    let jump = branch(
        &mut dfg,
        &mut layout,
        &mut cfg,
        ebbs[0],
        Opcode::Jump,
        ebbs[1],
        vec![c32, c64],
    );
    let user = binary(&mut dfg, &mut layout, ebbs[1], Opcode::Iadd, i64t(), p, p);
    let user_inst = Inst::new(3);
    assert_eq!(dfg.value_def(user), ValueDef::Res(user_inst, 0));
    assert_eq!(dfg.num_values(), 5);

    let mut pos = Cursor::new(layout);
    pos.goto_inst(user_inst);
    let (lo, hi) = isplit(&mut dfg, &cfg, &mut pos, p);

    // Two new parameters of half the width: one in place of the old one, one at the end.
    assert_eq!((lo, hi), (Value::new(5), Value::new(6)));
    assert_eq!(dfg.ebb_params(ebbs[1]), &vec![other, lo, hi]);
    assert_eq!(dfg.value_data(lo), ValueData::Param { ty: i32t(), num: 1, ebb: ebbs[1] });
    assert_eq!(dfg.value_data(hi), ValueData::Param { ty: i32t(), num: 2, ebb: ebbs[1] });

    // The old value is an alias of a concatenation at the top of the block.
    let concat = Inst::new(4);
    let whole = Value::new(7);
    assert_eq!(dfg.opcode(concat), Opcode::Iconcat);
    assert_eq!(args_of(&dfg, concat), vec![lo, hi]);
    assert_eq!(dfg.inst_results(concat), &vec![whole]);
    assert_eq!(dfg.value_type(whole), i64t());
    assert_eq!(dfg.value_data(p), ValueData::Alias { ty: i64t(), original: whole });
    assert_eq!(dfg.resolve_aliases(p), whole);
    assert_eq!(dfg.value_def(p), ValueDef::Res(concat, 0));

    // The branch passes the halves of its old argument, which a split before it computes.
    let split = Inst::new(5);
    assert_eq!(dfg.opcode(split), Opcode::Isplit);
    assert_eq!(args_of(&dfg, split), vec![c64]);
    let arg_lo = Value::new(8);
    let arg_hi = Value::new(9);
    assert_eq!(dfg.inst_results(split), &vec![arg_lo, arg_hi]);
    assert_eq!(args_of(&dfg, jump), vec![c32, arg_lo, arg_hi]);
    assert_eq!(dfg.num_insts(), 6);
    assert_eq!(dfg.num_values(), 10);

    // The cursor is where it was.
    assert_eq!(pos.position(), CursorPosition::At(user_inst));
    let layout = pos.into_layout();
    assert_eq!(
        layout.ebb_insts(ebbs[0]),
        &vec![Inst::new(0), Inst::new(1), split, jump]
    );
    assert_eq!(layout.ebb_insts(ebbs[1]), &vec![concat, user_inst]);
    assert_consistent(&dfg, &cfg);
}

#[test]
fn split_value_alone_leaves_the_repair_on_the_work_list() {
    let mut dfg = DataFlowGraph::new();
    let mut layout = Layout::new();
    let mut cfg = ControlFlowGraph::with_ebbs(2);
    let ebbs = blocks(&mut dfg, &mut layout, 2);
    let p = dfg.append_ebb_param(ebbs[1], i64t());
    let c64 = iconst(&mut dfg, &mut layout, ebbs[0], i64t());
    let jump =
        branch(&mut dfg, &mut layout, &mut cfg, ebbs[0], Opcode::Jump, ebbs[1], vec![c64]);

    let mut pos = Cursor::new(layout);
    pos.set_position(CursorPosition::After(ebbs[1]));
    let mut repairs = Vec::new();
    let (lo, hi) = split_value(&mut dfg, &mut pos, p, ConcatKind::Integer, &mut repairs);

    assert_eq!(
        repairs,
        vec![Repair {
            concat: ConcatKind::Integer,
            split_type: i32t(),
            ebb: ebbs[1],
            num: 0,
            hi_num: 1
        }]
    );
    assert_eq!(dfg.ebb_params(ebbs[1]), &vec![lo, hi]);
    // The branch is not repaired yet, and the cursor is at the top of the block.
    assert_eq!(args_of(&dfg, jump), vec![c64]);
    assert_eq!(pos.position(), CursorPosition::After(ebbs[1]));
    assert_eq!(pos.into_layout().ebb_insts(ebbs[1]), &vec![Inst::new(2)]);
}

#[test]
fn second_split_of_a_parameter_finds_the_halves_of_the_first() {
    let mut dfg = DataFlowGraph::new();
    let mut layout = Layout::new();
    let mut cfg = ControlFlowGraph::with_ebbs(2);
    let ebbs = blocks(&mut dfg, &mut layout, 2);
    let p = dfg.append_ebb_param(ebbs[1], i64t());
    let c64 = iconst(&mut dfg, &mut layout, ebbs[0], i64t());
    let jump =
        branch(&mut dfg, &mut layout, &mut cfg, ebbs[0], Opcode::Jump, ebbs[1], vec![c64]);
    let first_user = binary(&mut dfg, &mut layout, ebbs[1], Opcode::Iadd, i64t(), p, p);
    let second_user = binary(&mut dfg, &mut layout, ebbs[1], Opcode::Bxor, i64t(), p, p);
    assert_eq!(dfg.value_def(first_user), ValueDef::Res(Inst::new(2), 0));
    assert_eq!(dfg.value_def(second_user), ValueDef::Res(Inst::new(3), 0));

    let mut pos = Cursor::new(layout);
    pos.goto_inst(Inst::new(2));
    let first = isplit(&mut dfg, &cfg, &mut pos, p);
    let insts = dfg.num_insts();
    let values = dfg.num_values();
    let args = args_of(&dfg, jump);

    pos.goto_inst(Inst::new(3));
    let second = isplit(&mut dfg, &cfg, &mut pos, p);
    assert_eq!(second, first);
    assert_eq!(dfg.num_insts(), insts);
    assert_eq!(dfg.num_values(), values);
    assert_eq!(args_of(&dfg, jump), args);
    assert_eq!(dfg.ebb_params(ebbs[1]).len(), 2);
}

#[test]
fn second_split_of_an_instruction_result_inserts_a_second_split() {
    let mut dfg = DataFlowGraph::new();
    let mut layout = Layout::new();
    let ebbs = blocks(&mut dfg, &mut layout, 1);
    let cfg = ControlFlowGraph::with_ebbs(1);
    let v = iconst(&mut dfg, &mut layout, ebbs[0], i64t());
    let mut pos = Cursor::new(layout);
    pos.set_position(CursorPosition::After(ebbs[0]));
    let first = isplit(&mut dfg, &cfg, &mut pos, v);
    let second = isplit(&mut dfg, &cfg, &mut pos, v);
    assert_eq!(first, (Value::new(1), Value::new(2)));
    assert_eq!(second, (Value::new(3), Value::new(4)));
    assert_eq!(dfg.num_insts(), 3);
}

#[test]
fn every_predecessor_gets_the_split_pair() {
    let mut dfg = DataFlowGraph::new();
    let mut layout = Layout::new();
    let mut cfg = ControlFlowGraph::with_ebbs(4);
    let ebbs = blocks(&mut dfg, &mut layout, 4);
    let target = ebbs[3];
    let p = dfg.append_ebb_param(target, i64t());

    // Three predecessors: a conditional branch and a jump in the entry block, and jumps
    // in two more blocks. One passes a constant, one a concatenation, one a sum.
    let cond = iconst(&mut dfg, &mut layout, ebbs[0], i32t());
    let c0 = iconst(&mut dfg, &mut layout, ebbs[0], i64t());
    let brnz = branch(
        &mut dfg,
        &mut layout,
        &mut cfg,
        ebbs[0],
        Opcode::Brnz,
        target,
        vec![cond, c0],
    );
    let to1 = branch(&mut dfg, &mut layout, &mut cfg, ebbs[0], Opcode::Jump, ebbs[1], vec![]);
    let a = iconst(&mut dfg, &mut layout, ebbs[1], i32t());
    let b = iconst(&mut dfg, &mut layout, ebbs[1], i32t());
    let ab = binary(&mut dfg, &mut layout, ebbs[1], Opcode::Iconcat, i64t(), a, b);
    let brz = branch(
        &mut dfg,
        &mut layout,
        &mut cfg,
        ebbs[1],
        Opcode::Brz,
        target,
        vec![a, ab],
    );
    let to2 = branch(&mut dfg, &mut layout, &mut cfg, ebbs[1], Opcode::Jump, ebbs[2], vec![]);
    let s = binary(&mut dfg, &mut layout, ebbs[2], Opcode::Iadd, i64t(), ab, ab);
    let jump =
        branch(&mut dfg, &mut layout, &mut cfg, ebbs[2], Opcode::Jump, target, vec![s]);
    assert_eq!(cfg.get_predecessors(target).len(), 3);
    let values_before = dfg.num_values();
    let insts_before = dfg.num_insts();

    let mut pos = Cursor::new(layout);
    pos.set_position(CursorPosition::After(target));
    let (lo, hi) = isplit(&mut dfg, &cfg, &mut pos, p);

    // The block has gained exactly one parameter.
    assert_eq!(dfg.ebb_params(target), &vec![lo, hi]);

    // New values: the two parameters and the concatenation, then a split pair for the
    // constant and one for the sum. The concatenation needs no split.
    assert_eq!(dfg.num_values(), values_before + 3 + 2 + 2);
    assert_eq!(dfg.num_insts(), insts_before + 1 + 1 + 1);
    let c0_split = Inst::new(insts_before + 1);
    let s_split = Inst::new(insts_before + 2);
    assert_eq!(args_of(&dfg, c0_split), vec![c0]);
    assert_eq!(args_of(&dfg, s_split), vec![s]);
    let c0_halves = dfg.inst_results(c0_split).clone();
    let s_halves = dfg.inst_results(s_split).clone();
    assert_eq!(args_of(&dfg, brnz), vec![cond, c0_halves[0], c0_halves[1]]);
    assert_eq!(args_of(&dfg, brz), vec![a, a, b]);
    assert_eq!(args_of(&dfg, jump), vec![s_halves[0], s_halves[1]]);
    assert_eq!(args_of(&dfg, to1), vec![]);
    assert_eq!(args_of(&dfg, to2), vec![]);

    // Each split stands just before the branch that uses it.
    let layout = pos.into_layout();
    let entry_insts = layout.ebb_insts(ebbs[0]);
    assert_eq!(entry_insts[2], c0_split);
    assert_eq!(entry_insts[3], brnz);
    let last_insts = layout.ebb_insts(ebbs[2]);
    assert_eq!(last_insts, &vec![Inst::new(insts_before - 2), s_split, jump]);
    assert_consistent(&dfg, &cfg);
}

#[test]
fn a_branch_that_is_recorded_twice_is_repaired_once() {
    let mut dfg = DataFlowGraph::new();
    let mut layout = Layout::new();
    let mut cfg = ControlFlowGraph::with_ebbs(2);
    let ebbs = blocks(&mut dfg, &mut layout, 2);
    let p = dfg.append_ebb_param(ebbs[1], i64t());
    let c64 = iconst(&mut dfg, &mut layout, ebbs[0], i64t());
    let jump =
        branch(&mut dfg, &mut layout, &mut cfg, ebbs[0], Opcode::Jump, ebbs[1], vec![c64]);
    cfg.add_edge(ebbs[0], jump, ebbs[1]);
    assert_eq!(cfg.get_predecessors(ebbs[1]), &vec![(ebbs[0], jump), (ebbs[0], jump)]);

    let mut pos = Cursor::new(layout);
    pos.set_position(CursorPosition::After(ebbs[1]));
    let (lo, hi) = isplit(&mut dfg, &cfg, &mut pos, p);

    assert_eq!(dfg.ebb_params(ebbs[1]), &vec![lo, hi]);
    // One split instruction, and a list of two arguments, not of three.
    assert_eq!(dfg.num_insts(), 4);
    let halves = dfg.inst_results(Inst::new(3)).clone();
    assert_eq!(dfg.opcode(Inst::new(3)), Opcode::Isplit);
    assert_eq!(args_of(&dfg, jump), vec![halves[0], halves[1]]);
    assert_consistent(&dfg, &cfg);
}

#[test]
fn two_branches_of_one_block_to_the_same_block_are_both_repaired() {
    let mut dfg = DataFlowGraph::new();
    let mut layout = Layout::new();
    let mut cfg = ControlFlowGraph::with_ebbs(2);
    let ebbs = blocks(&mut dfg, &mut layout, 2);
    let p = dfg.append_ebb_param(ebbs[1], i64t());
    let cond = iconst(&mut dfg, &mut layout, ebbs[0], i32t());
    let c64 = iconst(&mut dfg, &mut layout, ebbs[0], i64t());
    let brz = branch(
        &mut dfg,
        &mut layout,
        &mut cfg,
        ebbs[0],
        Opcode::Brz,
        ebbs[1],
        vec![cond, c64],
    );
    let jump =
        branch(&mut dfg, &mut layout, &mut cfg, ebbs[0], Opcode::Jump, ebbs[1], vec![c64]);

    let mut pos = Cursor::new(layout);
    pos.set_position(CursorPosition::After(ebbs[1]));
    isplit(&mut dfg, &cfg, &mut pos, p);

    // Each textual edge has its own split of the constant.
    assert_eq!(args_of(&dfg, brz).len(), 3);
    assert_eq!(args_of(&dfg, jump).len(), 2);
    let brz_split = Inst::new(5);
    let jump_split = Inst::new(6);
    assert_eq!(args_of(&dfg, brz)[1..], dfg.inst_results(brz_split)[..]);
    assert_eq!(args_of(&dfg, jump)[..], dfg.inst_results(jump_split)[..]);
    assert_eq!(
        pos.into_layout().ebb_insts(ebbs[0]),
        &vec![Inst::new(0), Inst::new(1), brz_split, brz, jump_split, jump]
    );
    assert_consistent(&dfg, &cfg);
}

#[test]
fn a_split_cascades_through_the_parameters_of_predecessors() {
    let mut dfg = DataFlowGraph::new();
    let mut layout = Layout::new();
    let mut cfg = ControlFlowGraph::with_ebbs(3);
    let ebbs = blocks(&mut dfg, &mut layout, 3);
    // ebb0 -> ebb1(q) -> ebb2(p), and ebb1 passes its own parameter on.
    let q = dfg.append_ebb_param(ebbs[1], i64t());
    let p = dfg.append_ebb_param(ebbs[2], i64t());
    let c64 = iconst(&mut dfg, &mut layout, ebbs[0], i64t());
    let first =
        branch(&mut dfg, &mut layout, &mut cfg, ebbs[0], Opcode::Jump, ebbs[1], vec![c64]);
    let second =
        branch(&mut dfg, &mut layout, &mut cfg, ebbs[1], Opcode::Jump, ebbs[2], vec![q]);

    let mut pos = Cursor::new(layout);
    pos.set_position(CursorPosition::After(ebbs[2]));
    let (lo, hi) = isplit(&mut dfg, &cfg, &mut pos, p);

    assert_eq!(dfg.ebb_params(ebbs[2]), &vec![lo, hi]);
    // The parameter of ebb1 was split too, and the branch in ebb1 passes its halves.
    let q_halves = dfg.ebb_params(ebbs[1]).clone();
    assert_eq!(q_halves.len(), 2);
    assert_eq!(types_of(&dfg, &q_halves), vec![i32t(), i32t()]);
    assert_eq!(args_of(&dfg, second), q_halves);
    assert_eq!(
        dfg.value_data(q),
        ValueData::Alias { ty: i64t(), original: dfg.resolve_aliases(q) }
    );
    let q_concat = match dfg.value_def(q) {
        ValueDef::Res(inst, 0) => inst,
        _ => unreachable!(),
    };
    assert_eq!(dfg.opcode(q_concat), Opcode::Iconcat);
    assert_eq!(args_of(&dfg, q_concat), q_halves);
    // The constant is split by an instruction before the first branch.
    let c_split = match dfg.value_def(args_of(&dfg, first)[0]) {
        ValueDef::Res(inst, 0) => inst,
        _ => unreachable!(),
    };
    assert_eq!(dfg.opcode(c_split), Opcode::Isplit);
    assert_eq!(args_of(&dfg, c_split), vec![c64]);
    assert_eq!(args_of(&dfg, first)[..], dfg.inst_results(c_split)[..]);
    let layout = pos.into_layout();
    assert_eq!(layout.ebb_insts(ebbs[0]), &vec![Inst::new(0), c_split, first]);
    assert_eq!(layout.ebb_insts(ebbs[1]), &vec![q_concat, second]);
    assert_consistent(&dfg, &cfg);
}

#[test]
fn a_cycle_of_parameters_is_split_on_every_edge_and_the_pass_ends() {
    let mut dfg = DataFlowGraph::new();
    let mut layout = Layout::new();
    let mut cfg = ControlFlowGraph::with_ebbs(3);
    let ebbs = blocks(&mut dfg, &mut layout, 3);
    // ebb1(p) and ebb2(q) pass their parameters to each other and to nothing else.
    let p = dfg.append_ebb_param(ebbs[1], i64t());
    let q = dfg.append_ebb_param(ebbs[2], i64t());
    let c64 = iconst(&mut dfg, &mut layout, ebbs[0], i64t());
    let enter =
        branch(&mut dfg, &mut layout, &mut cfg, ebbs[0], Opcode::Jump, ebbs[1], vec![c64]);
    let forth =
        branch(&mut dfg, &mut layout, &mut cfg, ebbs[1], Opcode::Jump, ebbs[2], vec![p]);
    let back =
        branch(&mut dfg, &mut layout, &mut cfg, ebbs[2], Opcode::Jump, ebbs[1], vec![q]);

    let mut pos = Cursor::new(layout);
    pos.set_position(CursorPosition::After(ebbs[1]));
    let (lo, hi) = isplit(&mut dfg, &cfg, &mut pos, p);

    let p_halves = dfg.ebb_params(ebbs[1]).clone();
    let q_halves = dfg.ebb_params(ebbs[2]).clone();
    assert_eq!(p_halves, vec![lo, hi]);
    assert_eq!(q_halves.len(), 2);
    assert_eq!(args_of(&dfg, forth), p_halves);
    assert_eq!(args_of(&dfg, back), q_halves);
    assert_eq!(args_of(&dfg, enter).len(), 2);
    // Two concatenations, which nothing uses, and one split of the constant.
    assert_eq!(dfg.num_insts(), 4 + 3);
    assert_eq!(dfg.resolve_aliases(p), Value::new(5));
    assert_eq!(dfg.value_type(p), i64t());
    assert_eq!(dfg.value_type(q), i64t());
    assert_consistent(&dfg, &cfg);
}

#[test]
fn a_block_that_passes_its_own_parameter_to_itself() {
    let mut dfg = DataFlowGraph::new();
    let mut layout = Layout::new();
    let mut cfg = ControlFlowGraph::with_ebbs(2);
    let ebbs = blocks(&mut dfg, &mut layout, 2);
    let p = dfg.append_ebb_param(ebbs[1], i64t());
    let c64 = iconst(&mut dfg, &mut layout, ebbs[0], i64t());
    let enter =
        branch(&mut dfg, &mut layout, &mut cfg, ebbs[0], Opcode::Jump, ebbs[1], vec![c64]);
    let again =
        branch(&mut dfg, &mut layout, &mut cfg, ebbs[1], Opcode::Jump, ebbs[1], vec![p]);

    let mut pos = Cursor::new(layout);
    pos.goto_inst(again);
    let (lo, hi) = isplit(&mut dfg, &cfg, &mut pos, p);

    assert_eq!(dfg.ebb_params(ebbs[1]), &vec![lo, hi]);
    // The loop passes the new parameters: the old one is their concatenation.
    assert_eq!(args_of(&dfg, again), vec![lo, hi]);
    assert_eq!(args_of(&dfg, enter).len(), 2);
    assert_eq!(dfg.num_insts(), 3 + 2);
    assert_eq!(pos.position(), CursorPosition::At(again));
    assert_consistent(&dfg, &cfg);
}

#[test]
fn repairs_for_two_parameters_of_one_block_fill_the_gap() {
    let mut dfg = DataFlowGraph::new();
    let mut layout = Layout::new();
    let mut cfg = ControlFlowGraph::with_ebbs(3);
    let ebbs = blocks(&mut dfg, &mut layout, 3);
    // ebb1(q0, q1) passes both parameters on to ebb2(p), in two branches.
    let q0 = dfg.append_ebb_param(ebbs[1], i64t());
    let q1 = dfg.append_ebb_param(ebbs[1], i64t());
    let p = dfg.append_ebb_param(ebbs[2], i64t());
    let c0 = iconst(&mut dfg, &mut layout, ebbs[0], i64t());
    let c1 = iconst(&mut dfg, &mut layout, ebbs[0], i64t());
    let enter = branch(
        &mut dfg,
        &mut layout,
        &mut cfg,
        ebbs[0],
        Opcode::Jump,
        ebbs[1],
        vec![c0, c1],
    );
    let cond = iconst(&mut dfg, &mut layout, ebbs[1], i32t());
    let brnz = branch(
        &mut dfg,
        &mut layout,
        &mut cfg,
        ebbs[1],
        Opcode::Brnz,
        ebbs[2],
        vec![cond, q0],
    );
    let jump =
        branch(&mut dfg, &mut layout, &mut cfg, ebbs[1], Opcode::Jump, ebbs[2], vec![q1]);

    let mut pos = Cursor::new(layout);
    pos.set_position(CursorPosition::After(ebbs[2]));
    let (lo, hi) = isplit(&mut dfg, &cfg, &mut pos, p);

    assert_eq!(dfg.ebb_params(ebbs[2]), &vec![lo, hi]);
    // Both parameters of ebb1 are split: the low halves in place, the high halves behind.
    let params = dfg.ebb_params(ebbs[1]).clone();
    assert_eq!(params.len(), 4);
    assert_eq!(types_of(&dfg, &params), vec![i32t(); 4]);
    assert_eq!(args_of(&dfg, brnz), vec![cond, params[0], params[2]]);
    assert_eq!(args_of(&dfg, jump), vec![params[1], params[3]]);
    assert_eq!(dfg.value_def(q0), dfg.value_def(dfg.resolve_aliases(q0)));
    let q0_concat = match dfg.value_def(q0) {
        ValueDef::Res(inst, 0) => inst,
        _ => unreachable!(),
    };
    let q1_concat = match dfg.value_def(q1) {
        ValueDef::Res(inst, 0) => inst,
        _ => unreachable!(),
    };
    assert_eq!(args_of(&dfg, q0_concat), vec![params[0], params[2]]);
    assert_eq!(args_of(&dfg, q1_concat), vec![params[1], params[3]]);

    // The branch into ebb1 passes the halves of both constants at the places of the
    // parameters, whichever repair came first.
    let args = args_of(&dfg, enter);
    assert_eq!(args.len(), 4);
    let split_of = |v: Value| match dfg.value_def(v) {
        ValueDef::Res(inst, num) => (dfg.opcode(inst), args_of(&dfg, inst), num),
        ValueDef::Param(_, _) => unreachable!(),
    };
    assert_eq!(split_of(args[0]), (Opcode::Isplit, vec![c0], 0));
    assert_eq!(split_of(args[1]), (Opcode::Isplit, vec![c1], 0));
    assert_eq!(split_of(args[2]), (Opcode::Isplit, vec![c0], 1));
    assert_eq!(split_of(args[3]), (Opcode::Isplit, vec![c1], 1));
    assert_consistent(&dfg, &cfg);
}

#[test]
fn vector_parameters_are_split_by_lanes() {
    let mut dfg = DataFlowGraph::new();
    let mut layout = Layout::new();
    let mut cfg = ControlFlowGraph::with_ebbs(2);
    let ebbs = blocks(&mut dfg, &mut layout, 2);
    let whole = Type::float_with_bits(32).with_lanes(8);
    let half = Type::float_with_bits(32).with_lanes(4);
    let p = dfg.append_ebb_param(ebbs[1], whole);
    let c = iconst(&mut dfg, &mut layout, ebbs[0], whole);
    let jump = branch(&mut dfg, &mut layout, &mut cfg, ebbs[0], Opcode::Jump, ebbs[1], vec![c]);

    let mut pos = Cursor::new(layout);
    pos.set_position(CursorPosition::After(ebbs[1]));
    let (lo, hi) = split_any(&mut dfg, &cfg, &mut pos, p, ConcatKind::Vector);

    assert_eq!(dfg.value_type(lo), half);
    assert_eq!(dfg.value_type(hi), half);
    assert_eq!(dfg.opcode(Inst::new(2)), Opcode::Vconcat);
    assert_eq!(dfg.opcode(Inst::new(3)), Opcode::Vsplit);
    assert_eq!(args_of(&dfg, jump)[..], dfg.inst_results(Inst::new(3))[..]);
    assert_consistent(&dfg, &cfg);
}

#[test]
fn xor_of_two_wide_parameters_is_lowered_to_two_narrow_xors() {
    let mut dfg = DataFlowGraph::new();
    let mut layout = Layout::new();
    let mut cfg = ControlFlowGraph::with_ebbs(2);
    let ebbs = blocks(&mut dfg, &mut layout, 2);
    // ebb1(v2: i64, v3: i64): v1 = bxor v2, v3, in a loop that passes on v3 and v2.
    let v2 = dfg.append_ebb_param(ebbs[1], i64t());
    let v3 = dfg.append_ebb_param(ebbs[1], i64t());
    let a = iconst(&mut dfg, &mut layout, ebbs[0], i32t());
    let b = iconst(&mut dfg, &mut layout, ebbs[0], i32t());
    let enter = branch(&mut dfg, &mut layout, &mut cfg, ebbs[0], Opcode::Jump, ebbs[1], vec![]);
    let xor = dfg.make_inst(
        InstructionData::Binary { opcode: Opcode::Bxor, args: [v2, v3] },
        i64t(),
    );
    layout.append_inst(xor, ebbs[1]);
    let again =
        branch(&mut dfg, &mut layout, &mut cfg, ebbs[1], Opcode::Jump, ebbs[1], vec![v3, v2]);
    // The branch from the entry block passes two concatenations of constants.
    let mut pos = Cursor::new(layout);
    pos.goto_inst(enter);
    let ab = dfg.make_inst(
        InstructionData::Binary { opcode: Opcode::Iconcat, args: [a, b] },
        i64t(),
    );
    pos.insert_inst(ab);
    let ba = dfg.make_inst(
        InstructionData::Binary { opcode: Opcode::Iconcat, args: [b, a] },
        i64t(),
    );
    pos.insert_inst(ba);
    let ab = dfg.first_result(ab);
    let ba = dfg.first_result(ba);
    let taken = dfg.take_value_list(enter).unwrap();
    assert_eq!(taken, vec![]);
    dfg.put_value_list(enter, vec![ab, ba]);
    assert_consistent(&dfg, &cfg);

    // Legalize the xor: split its operands, and compute the halves of the result.
    pos.goto_inst(xor);
    let (v20, v21) = isplit(&mut dfg, &cfg, &mut pos, v2);
    let (v30, v31) = isplit(&mut dfg, &cfg, &mut pos, v3);
    let lo = dfg.make_inst(
        InstructionData::Binary { opcode: Opcode::Bxor, args: [v20, v30] },
        i32t(),
    );
    pos.insert_inst(lo);
    let hi = dfg.make_inst(
        InstructionData::Binary { opcode: Opcode::Bxor, args: [v21, v31] },
        i32t(),
    );
    pos.insert_inst(hi);
    let (v10, v11) = (dfg.first_result(lo), dfg.first_result(hi));
    let whole = dfg.make_inst(
        InstructionData::Binary { opcode: Opcode::Iconcat, args: [v10, v11] },
        i64t(),
    );
    pos.insert_inst(whole);

    // The block has four parameters of 32 bits, and the old ones are concatenations.
    let params = dfg.ebb_params(ebbs[1]).clone();
    assert_eq!(params, vec![v20, v30, v21, v31]);
    assert_eq!(types_of(&dfg, &params), vec![i32t(); 4]);
    for (old, halves) in [(v2, [v20, v21]), (v3, [v30, v31])] {
        match dfg.value_def(old) {
            ValueDef::Res(inst, 0) => {
                assert_eq!(dfg.opcode(inst), Opcode::Iconcat);
                assert_eq!(args_of(&dfg, inst), halves.to_vec());
            }
            _ => unreachable!(),
        }
    }
    // The branches pass halves and no instruction was needed to split an argument.
    assert_eq!(args_of(&dfg, enter), vec![a, b, b, a]);
    assert_eq!(args_of(&dfg, again), vec![v30, v20, v31, v21]);
    assert_consistent(&dfg, &cfg);
    // Apart from the old xor, which the concatenation `whole` replaces, only
    // concatenations have a result of 64 bits, and no instruction has such an operand.
    for i in 0..dfg.num_insts() {
        let inst = Inst::new(i);
        if inst == xor {
            continue;
        }
        for &r in dfg.inst_results(inst) {
            if dfg.value_type(r) == i64t() {
                assert_eq!(dfg.opcode(inst), Opcode::Iconcat);
            }
        }
        for v in args_of(&dfg, inst) {
            assert_eq!(dfg.value_type(v), i32t());
        }
    }
    assert_eq!(dfg.opcode(lo), Opcode::Bxor);
    assert_eq!(dfg.opcode(hi), Opcode::Bxor);
    let layout = pos.into_layout();
    let body = layout.ebb_insts(ebbs[1]);
    assert_eq!(body.len(), 7);
    assert_eq!(body[2..], [lo, hi, whole, xor, again]);
}
