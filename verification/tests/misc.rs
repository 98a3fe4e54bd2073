use llhd::argument::Argument;
use llhd::block::{Block, BlockPosition};
use llhd::inst::{
    determine_sliced_type, BinaryMnemonic, BinaryOp, CompareOp, Inst, InstKind, InstPosition, Mnemonic, SliceMode,
};
use llhd::ir::inst::{InstData, Opcode, RegMode, RegTrigger};
use llhd::ir::keys::Value;
use llhd::mlir::writer::{create_index_type, get_type_bit_width, mlir_opcode, mlir_type_string, mlir_unit_kind};
use llhd::ir::unit::UnitKind;
use llhd::sim::state::{InstanceRef, Scope, SignalRef, ValuePointer, ValueSelect, ValueSlice, ValueTarget};
use llhd::value::{BlockRef, InstRef, ValueId, ValueRef};
use llhd::{array_ty, int_ty, signal_ty, struct_ty, void_ty};

#[test]
fn compare_ops_round_trip() {
    let all = [
        CompareOp::Eq,
        CompareOp::Neq,
        CompareOp::Slt,
        CompareOp::Sgt,
        CompareOp::Sle,
        CompareOp::Sge,
        CompareOp::Ult,
        CompareOp::Ugt,
        CompareOp::Ule,
        CompareOp::Uge,
    ];
    for op in all.iter() {
        assert_eq!(CompareOp::from_str(op.to_str()), Some(*op));
    }
    assert_eq!(CompareOp::Slt.to_str(), "slt");
    assert_eq!(CompareOp::from_str("foo"), None);
    assert_eq!(CompareOp::from_str(""), None);
}

#[test]
fn graph_instructions() {
    let id = InstRef(ValueId(7));
    let i = Inst::new(id, Some("x".to_string()), InstKind::HaltInst);
    assert_eq!(i.as_ref(), id);
    assert_eq!(i.name(), Some("x"));
    assert_eq!(i.mnemonic(), Mnemonic::Halt);
    let add = InstKind::BinaryInst(BinaryOp::Add, int_ty(8), ValueRef::Inst(id), ValueRef::Inst(id));
    assert_eq!(add.mnemonic(), Mnemonic::Binary(BinaryMnemonic::Add));
    assert!(add.ty().same_as(&int_ty(8)));
    assert!(determine_sliced_type(&array_ty(4, int_ty(8)), SliceMode::Slice(1, 2)).same_as(&array_ty(2, int_ty(8))));
    assert!(determine_sliced_type(&int_ty(8), SliceMode::Element(3)).same_as(&int_ty(1)));
    assert!(determine_sliced_type(&struct_ty(vec![int_ty(3), void_ty()]), SliceMode::Element(0)).same_as(&int_ty(3)));
    assert!(
        determine_sliced_type(&signal_ty(int_ty(8)), SliceMode::Slice(0, 4)).same_as(&signal_ty(int_ty(4)))
    );
}

#[test]
fn blocks_and_arguments() {
    let mut b = Block::new(ValueId(1), Some("entry".to_string()));
    assert_eq!(b.as_ref(), BlockRef(ValueId(1)));
    let i1 = InstRef(ValueId(10));
    let i2 = InstRef(ValueId(11));
    let i3 = InstRef(ValueId(12));
    b.insert_inst(i1, InstPosition::End);
    b.insert_inst(i3, InstPosition::After(i1));
    b.insert_inst(i2, InstPosition::Before(i3));
    assert_eq!(b.inst_refs(), &[i1, i2, i3]);
    b.insert_inst(i2, InstPosition::BlockBegin(BlockRef(ValueId(1))));
    assert_eq!(b.inst_refs(), &[i2, i1, i2, i3]);
    b.detach_inst(i2);
    assert_eq!(b.inst_refs(), &[i1, i2, i3]);
    let _ = BlockPosition::Before(BlockRef(ValueId(1)));

    let mut a = Argument::new(ValueId(3), int_ty(16));
    assert_eq!(a.name(), None);
    a.set_name("clk".to_string());
    assert_eq!(a.name(), Some("clk"));
    assert!(a.ty().same_as(&int_ty(16)));
}

#[test]
fn register_triggers() {
    let data = InstData::Reg {
        opcode: Opcode::Reg,
        args: vec![Value(0), Value(1), Value(2), Value(3), Value(4), Value(u32::MAX), Value(5)],
        modes: vec![RegMode::Rise, RegMode::Fall],
    };
    assert_eq!(data.data_args(), vec![Value(1), Value(2)]);
    assert_eq!(data.trigger_args(), vec![Value(3), Value(4)]);
    assert_eq!(data.gating_args(), vec![None, Some(Value(5))]);
    assert_eq!(data.mode_args(), vec![RegMode::Rise, RegMode::Fall]);
    let t = data.triggers();
    assert_eq!(t.len(), 2);
    assert_eq!(t[1], RegTrigger { data: Value(2), mode: RegMode::Fall, trigger: Value(4), gate: Some(Value(5)) });
    let other = InstData::Nullary { opcode: Opcode::Halt };
    assert_eq!(other.triggers().len(), 0);
}

#[test]
fn circt_type_helpers() {
    assert_eq!(get_type_bit_width(&int_ty(8)), 8);
    assert_eq!(get_type_bit_width(&array_ty(4, int_ty(3))), 12);
    assert_eq!(get_type_bit_width(&struct_ty(vec![int_ty(8), array_ty(2, int_ty(4))])), 16);
    assert!(create_index_type(&int_ty(8)).same_as(&int_ty(3)));
    assert!(create_index_type(&int_ty(9)).same_as(&int_ty(4)));
    assert!(create_index_type(&array_ty(1, int_ty(8))).same_as(&int_ty(0)));
    assert!(create_index_type(&signal_ty(array_ty(16, int_ty(1)))).same_as(&int_ty(4)));
}

#[test]
fn simulation_bookkeeping() {
    let s = SignalRef::new(4);
    assert_eq!(s.as_usize(), 4);
    assert_eq!(InstanceRef::new(2), InstanceRef(2));
    assert_eq!(ValueSelect::Field(3).to_string(), ".3");
    assert_eq!(ValueSelect::Slice(2, 5).to_string(), "[2+:5]");
    let mut scope = Scope::new("top");
    scope.add_probe(s, "a".to_string());
    scope.add_probe(SignalRef::new(1), "b".to_string());
    scope.add_probe(s, "c".to_string());
    assert_eq!(scope.probes.len(), 2);
    assert_eq!(scope.probes[0].1, vec!["a".to_string(), "c".to_string()]);
    scope.add_subscope(Scope::new("sub"));
    assert_eq!(scope.subscopes.len(), 1);
    assert_eq!(scope.subscopes[0].name, "sub");
}

fn slice(target: ValueTarget, select: Vec<ValueSelect>, width: usize) -> ValueSlice {
    ValueSlice { target, select, width }
}

#[test]
fn pointer_text_and_width() {
    let a = slice(ValueTarget::Signal(SignalRef::new(2)), vec![ValueSelect::Field(1)], 8);
    let b = slice(ValueTarget::Variable(Value(7)), vec![ValueSelect::Slice(4, 3)], 3);
    let c = slice(ValueTarget::Value(Value(1)), vec![], 0);
    assert_eq!(a.to_string(), "$s2.1");
    assert_eq!(b.to_string(), "*v7[4+:3]");
    assert_eq!(c.to_string(), "v1");
    let single = ValuePointer(vec![a.clone()]);
    assert_eq!(single.to_string(false), "$s2.1");
    assert_eq!(single.to_string(true), "$s2.1");
    let p = ValuePointer(vec![a, b, c]);
    assert_eq!(p.to_string(false), "[$s2.1, *v7[4+:3], v1]");
    assert_eq!(p.to_string(true), "[\n    $s2.1\n    *v7[4+:3]\n    v1\n]");
    assert_eq!(p.width(), 11);
    let offs: Vec<usize> = p.offset_slices().iter().map(|(o, _)| *o).collect();
    assert_eq!(offs, vec![0, 8, 11]);
    assert_eq!(ValuePointer(vec![]).to_string(false), "[]");
}

#[test]
fn target_unwrap() {
    assert_eq!(ValueTarget::Value(Value(3)).unwrap_value(), Value(3));
    assert_eq!(ValueTarget::Variable(Value(4)).unwrap_variable(), Value(4));
    assert_eq!(ValueTarget::Signal(SignalRef::new(5)).unwrap_signal(), SignalRef::new(5));
}

#[test]
fn mlir_types() {
    assert_eq!(mlir_type_string(&void_ty()), "()");
    assert_eq!(mlir_type_string(&signal_ty(int_ty(8))), "!llhd.sig<i8>");
    assert_eq!(mlir_type_string(&array_ty(4, int_ty(2))), "!hw.array<4xi2>");
    let s = struct_ty(vec![int_ty(1), array_ty(2, int_ty(3))]);
    assert_eq!(mlir_type_string(&s), "!hw.struct<f0: i1, f1: !hw.array<2xi3>>");
    assert_eq!(mlir_unit_kind(UnitKind::Process), "llhd.proc");
    assert_eq!(mlir_unit_kind(UnitKind::Entity), "llhd.entity");
    assert_eq!(mlir_opcode(Opcode::Neq), "comb.icmp \"ne\"");
    assert_eq!(mlir_opcode(Opcode::BrCond), "cf.cond_br");
    assert_eq!(mlir_opcode(Opcode::Ld), "llhd.load");
}

#[test]
fn mlir_function_and_entity_types() {
    let f = llhd::func_ty(vec![int_ty(1), signal_ty(int_ty(2))], int_ty(3));
    assert_eq!(mlir_type_string(&f), "(i1, !llhd.sig<i2>) -> i3");
    let e = llhd::entity_ty(vec![int_ty(1)], vec![llhd::pointer_ty(int_ty(4))]);
    assert_eq!(mlir_type_string(&e), "(i1) -> (!llhd.ptr<i4>)");
}
