use cretonne::flowgraph::ControlFlowGraph;
use cretonne::ir::dfg::{DataFlowGraph, ValueData, ValueDef};
use cretonne::ir::entities::{Ebb, Inst, StackSlot, Value};
use cretonne::ir::instructions::{InstructionData, InstructionFormat, Opcode};
use cretonne::ir::layout::{Cursor, CursorPosition, Layout};
use cretonne::ir::types::{LaneKind, Type};

#[test]
fn entities_keep_their_index() {
    assert_eq!(Value::new(5).index(), 5);
    assert_eq!(Inst::new(0).index(), 0);
    assert_eq!(Ebb::new(usize::MAX).index(), usize::MAX);
    assert_eq!(StackSlot::new(9).index(), 9);
    assert_eq!(Value::new(1), Value(1));
    assert_ne!(Value::new(1), Value::new(2));
}

#[test]
fn types_halve_their_width() {
    assert_eq!(Type::int_with_bits(64).half_width(), Some(Type::int_with_bits(32)));
    assert_eq!(Type::int_with_bits(32).half_width(), Some(Type::int_with_bits(16)));
    assert_eq!(Type::int_with_bits(16).half_width(), Some(Type::int_with_bits(8)));
    // Eight bits are not halved, nor are floats and booleans.
    assert_eq!(Type::int_with_bits(8).half_width(), None);
    assert_eq!(Type::float_with_bits(64).half_width(), None);
    assert_eq!(Type::boolean().half_width(), None);
    // A vector is halved lane by lane.
    assert_eq!(
        Type::int_with_bits(64).with_lanes(4).half_width(),
        Some(Type::int_with_bits(32).with_lanes(4))
    );
}

#[test]
fn types_halve_their_lanes() {
    let f32x8 = Type::float_with_bits(32).with_lanes(8);
    assert_eq!(f32x8.half_vector(), Some(Type::float_with_bits(32).with_lanes(4)));
    assert_eq!(
        Type::int_with_bits(8).with_lanes(2).half_vector(),
        Some(Type::int_with_bits(8))
    );
    // A scalar has no half, nor has a vector with an odd number of lanes.
    assert_eq!(Type::int_with_bits(64).half_vector(), None);
    assert_eq!(Type::int_with_bits(32).with_lanes(3).half_vector(), None);
    assert_eq!(Type::int_with_bits(32).with_lanes(0).half_vector(), None);
}

#[test]
fn types_know_their_size() {
    let t = Type::int_with_bits(32).with_lanes(4);
    assert_eq!(t.lane_bits(), 32);
    assert_eq!(t.lane_count(), 4);
    assert_eq!(t.bits(), 128);
    assert!(t.is_vector());
    assert!(t.is_int());
    assert!(!Type::int_with_bits(32).is_vector());
    assert!(!Type::float_with_bits(32).is_int());
    assert_eq!(Type::boolean(), Type { kind: LaneKind::Bool, lane_bits: 1, lanes: 1 });
    assert_eq!(Type::int_with_bits(u16::MAX).with_lanes(u16::MAX).bits(), 65535 * 65535);
}

#[test]
fn opcodes_have_formats_and_arities() {
    assert_eq!(Opcode::Jump.format(), InstructionFormat::Branch);
    assert_eq!(Opcode::Brz.format(), InstructionFormat::Branch);
    assert_eq!(Opcode::Iconst.format(), InstructionFormat::Nullary);
    assert_eq!(Opcode::Isplit.format(), InstructionFormat::Unary);
    assert_eq!(Opcode::Vconcat.format(), InstructionFormat::Binary);
    assert!(Opcode::Brnz.is_branch());
    assert!(!Opcode::Iconcat.is_branch());
    assert_eq!(Opcode::Jump.fixed_value_arguments(), 0);
    assert_eq!(Opcode::Brz.fixed_value_arguments(), 1);
    assert_eq!(Opcode::Brnz.fixed_value_arguments(), 1);
    assert_eq!(Opcode::Bxor.fixed_value_arguments(), 2);
    assert_eq!(Opcode::Jump.num_results(), 0);
    assert_eq!(Opcode::Isplit.num_results(), 2);
    assert_eq!(Opcode::Vsplit.num_results(), 2);
    assert_eq!(Opcode::Iadd.num_results(), 1);
}

#[test]
fn instruction_data_gives_and_takes_its_operands() {
    let a = Value::new(0);
    let b = Value::new(1);
    let c = Value::new(2);
    let mut add = InstructionData::Binary { opcode: Opcode::Iadd, args: [a, b] };
    assert_eq!(add.opcode(), Opcode::Iadd);
    assert_eq!(add.num_args(), 2);
    assert_eq!((add.arg(0), add.arg(1)), (a, b));
    add.set_arg(1, c);
    assert_eq!((add.arg(0), add.arg(1)), (a, c));
    assert_eq!(add.branch_destination(), None);
    // Only a branch has a list to take.
    assert_eq!(add.take_value_list(), None);
    assert_eq!(add.num_args(), 2);

    let mut jump = InstructionData::Branch {
        opcode: Opcode::Jump,
        destination: Ebb::new(4),
        args: vec![a, b],
    };
    assert_eq!(jump.branch_destination(), Some(Ebb::new(4)));
    let list = jump.take_value_list();
    assert_eq!(list, Some(vec![a, b]));
    assert_eq!(jump.num_args(), 0);
    jump.put_value_list(vec![c, b, a]);
    assert_eq!(jump.num_args(), 3);
    assert_eq!(jump.arg(0), c);
    jump.set_arg(0, a);
    assert_eq!(jump.arg(0), a);

    let mut copy = InstructionData::Unary { opcode: Opcode::Copy, arg: a };
    copy.set_arg(0, b);
    assert_eq!(copy.arg(0), b);
    assert_eq!(InstructionData::Nullary { opcode: Opcode::Iconst }.num_args(), 0);
}

#[test]
fn graph_creates_values_for_parameters_and_results() {
    let mut dfg = DataFlowGraph::new();
    assert_eq!((dfg.num_values(), dfg.num_insts(), dfg.num_ebbs()), (0, 0, 0));
    let ebb0 = dfg.make_ebb();
    let ebb1 = dfg.make_ebb();
    assert_eq!((ebb0, ebb1), (Ebb::new(0), Ebb::new(1)));
    let i64t = Type::int_with_bits(64);
    let wide = dfg.append_ebb_param(ebb1, i64t);
    let flag = dfg.append_ebb_param(ebb1, Type::boolean());
    assert_eq!(dfg.num_ebb_params(ebb0), 0);
    assert_eq!(dfg.ebb_params(ebb1), &vec![wide, flag]);
    assert_eq!(dfg.value_def(flag), ValueDef::Param(ebb1, 1));
    assert_eq!(dfg.value_type(flag), Type::boolean());

    let split = dfg.make_inst(
        InstructionData::Unary { opcode: Opcode::Isplit, arg: wide },
        Type::int_with_bits(32),
    );
    assert_eq!(split, Inst::new(0));
    assert_eq!(dfg.inst_results(split), &vec![Value::new(2), Value::new(3)]);
    assert_eq!(dfg.first_result(split), Value::new(2));
    assert_eq!(dfg.value_def(Value::new(3)), ValueDef::Res(split, 1));
    assert_eq!(
        dfg.value_data(Value::new(3)),
        ValueData::Inst { ty: Type::int_with_bits(32), num: 1, inst: split }
    );
    assert_eq!(dfg.inst_arg(split, 0), wide);
    let jump = dfg.make_inst(
        InstructionData::Branch { opcode: Opcode::Jump, destination: ebb1, args: vec![wide, flag] },
        Type::boolean(),
    );
    assert_eq!(dfg.inst_results(jump), &Vec::<Value>::new());
    assert_eq!(dfg.num_values(), 4);
    dfg.set_inst_arg(jump, 1, wide);
    assert_eq!(dfg.inst_arg(jump, 1), wide);
}

#[test]
fn aliases_are_followed_to_the_value_they_stand_for() {
    let mut dfg = DataFlowGraph::new();
    let ebb = dfg.make_ebb();
    let t = Type::int_with_bits(32);
    let a = dfg.append_ebb_param(ebb, t);
    let b = dfg.append_ebb_param(ebb, t);
    let c = dfg.append_ebb_param(ebb, t);
    assert_eq!(dfg.resolve_aliases(a), a);

    // Replace `a`, and make it an alias of `b`.
    let a2 = dfg.replace_ebb_param(a, t);
    assert_eq!(dfg.value_data(a), ValueData::Detached { ty: t });
    assert_eq!(dfg.ebb_params(ebb), &vec![a2, b, c]);
    assert_eq!(dfg.value_def(a2), ValueDef::Param(ebb, 0));
    dfg.change_to_alias(a, b);
    assert_eq!(dfg.resolve_aliases(a), b);
    assert_eq!(dfg.value_def(a), ValueDef::Param(ebb, 1));

    // Replace `b`, and make it an alias of `c`: `a` now stands for `c` too.
    let b2 = dfg.replace_ebb_param(b, t);
    dfg.change_to_alias(b, c);
    assert_eq!(dfg.value_data(a), ValueData::Alias { ty: t, original: b });
    assert_eq!(dfg.value_data(b), ValueData::Alias { ty: t, original: c });
    assert_eq!(dfg.resolve_aliases(a), c);
    assert_eq!(dfg.resolve_aliases(b), c);
    assert_eq!(dfg.value_def(a), ValueDef::Param(ebb, 2));
    assert_eq!(dfg.ebb_params(ebb), &vec![a2, b2, c]);

    // An alias of an alias is stored as an alias of what that stands for.
    let c2 = dfg.replace_ebb_param(c, t);
    dfg.change_to_alias(c, a2);
    let d = dfg.append_ebb_param(ebb, t);
    let d2 = dfg.replace_ebb_param(d, t);
    dfg.change_to_alias(d, a);
    assert_eq!(dfg.value_data(d), ValueData::Alias { ty: t, original: a2 });
    assert_eq!(dfg.resolve_aliases(a), a2);
    assert_eq!(dfg.ebb_params(ebb), &vec![a2, b2, c2, d2]);
}

#[test]
fn layout_keeps_blocks_and_instructions_in_order() {
    let mut layout = Layout::new();
    assert_eq!(layout.entry_block(), None);
    assert!(!layout.is_ebb_inserted(Ebb::new(0)));
    layout.append_ebb(Ebb::new(2));
    layout.append_ebb(Ebb::new(0));
    assert_eq!(layout.entry_block(), Some(Ebb::new(2)));
    assert_eq!(layout.ebbs(), &vec![Ebb::new(2), Ebb::new(0)]);
    assert!(layout.is_ebb_inserted(Ebb::new(0)));
    assert!(!layout.is_ebb_inserted(Ebb::new(1)));
    assert_eq!(layout.first_inst(Ebb::new(0)), None);

    layout.append_inst(Inst::new(5), Ebb::new(0));
    layout.append_inst(Inst::new(1), Ebb::new(0));
    layout.insert_inst(Inst::new(3), Inst::new(1));
    layout.insert_inst(Inst::new(0), Inst::new(5));
    layout.append_inst(Inst::new(2), Ebb::new(2));
    assert_eq!(
        layout.ebb_insts(Ebb::new(0)),
        &vec![Inst::new(0), Inst::new(5), Inst::new(3), Inst::new(1)]
    );
    assert_eq!(layout.ebb_insts(Ebb::new(2)), &vec![Inst::new(2)]);
    assert_eq!(layout.inst_ebb(Inst::new(3)), Some(Ebb::new(0)));
    assert_eq!(layout.inst_ebb(Inst::new(2)), Some(Ebb::new(2)));
    assert_eq!(layout.inst_ebb(Inst::new(4)), None);
    assert_eq!(layout.inst_ebb(Inst::new(40)), None);
    assert_eq!(layout.first_inst(Ebb::new(0)), Some(Inst::new(0)));
    assert_eq!(layout.next_inst(Inst::new(5)), Some(Inst::new(3)));
    assert_eq!(layout.next_inst(Inst::new(1)), None);
}

#[test]
fn cursor_walks_a_block_and_inserts_before_its_position() {
    let mut layout = Layout::new();
    layout.append_ebb(Ebb::new(0));
    layout.append_ebb(Ebb::new(1));
    layout.append_inst(Inst::new(0), Ebb::new(0));
    layout.append_inst(Inst::new(1), Ebb::new(0));
    let mut pos = Cursor::new(layout);
    assert_eq!(pos.position(), CursorPosition::Nowhere);
    assert_eq!(pos.next_inst(), None);
    assert_eq!(pos.position(), CursorPosition::Nowhere);

    pos.goto_top(Ebb::new(0));
    assert_eq!(pos.position(), CursorPosition::Before(Ebb::new(0)));
    assert_eq!(pos.next_inst(), Some(Inst::new(0)));
    pos.insert_inst(Inst::new(7));
    assert_eq!(pos.position(), CursorPosition::At(Inst::new(0)));
    assert_eq!(pos.next_inst(), Some(Inst::new(1)));
    assert_eq!(pos.next_inst(), None);
    assert_eq!(pos.position(), CursorPosition::After(Ebb::new(0)));
    assert_eq!(pos.next_inst(), None);
    pos.insert_inst(Inst::new(8));
    assert_eq!(
        pos.layout().ebb_insts(Ebb::new(0)),
        &vec![Inst::new(7), Inst::new(0), Inst::new(1), Inst::new(8)]
    );

    // The top of an empty block is its end.
    pos.goto_top(Ebb::new(1));
    assert_eq!(pos.next_inst(), None);
    assert_eq!(pos.position(), CursorPosition::After(Ebb::new(1)));
    pos.insert_inst(Inst::new(9));
    pos.goto_inst(Inst::new(9));
    pos.insert_inst(Inst::new(4));
    let saved = pos.position();
    pos.set_position(CursorPosition::At(Inst::new(7)));
    pos.set_position(saved);
    assert_eq!(pos.position(), CursorPosition::At(Inst::new(9)));
    let layout = pos.into_layout();
    assert_eq!(layout.ebb_insts(Ebb::new(1)), &vec![Inst::new(4), Inst::new(9)]);
}

#[test]
fn flowgraph_records_predecessors_in_order() {
    let mut cfg = ControlFlowGraph::with_ebbs(3);
    assert_eq!(cfg.num_ebbs(), 3);
    assert!(cfg.get_predecessors(Ebb::new(1)).is_empty());
    cfg.add_edge(Ebb::new(0), Inst::new(4), Ebb::new(1));
    cfg.add_edge(Ebb::new(2), Inst::new(9), Ebb::new(1));
    cfg.add_edge(Ebb::new(0), Inst::new(4), Ebb::new(1));
    cfg.add_edge(Ebb::new(1), Inst::new(6), Ebb::new(2));
    assert_eq!(
        cfg.get_predecessors(Ebb::new(1)),
        &vec![
            (Ebb::new(0), Inst::new(4)),
            (Ebb::new(2), Inst::new(9)),
            (Ebb::new(0), Inst::new(4))
        ]
    );
    assert_eq!(cfg.get_predecessors(Ebb::new(2)), &vec![(Ebb::new(1), Inst::new(6))]);
    assert!(cfg.get_predecessors(Ebb::new(0)).is_empty());
    assert_eq!(ControlFlowGraph::with_ebbs(0).num_ebbs(), 0);
}
