use llhd::int_ty;
use llhd::ir::inst::Opcode;
use llhd::ir::keys::{Block, Value};
use llhd::ir::sig::Signature;
use llhd::ir::unit::{Unit, UnitBuilder, UnitData, UnitKind, UnitName};
use llhd::konst::ConstInt;
use num::BigInt;

fn konst(width: usize, value: i64) -> ConstInt {
    ConstInt::new(width, BigInt::from(value))
}

/// A function `@foo (i32 %a, i32 %b) i32` with two blocks:
/// `bb0` computes `4 + 5` and branches to `bb1`, which adds `%a` and
/// returns the sum.
fn build() -> (UnitData, [Value; 5], [Block; 2]) {
    let mut sig = Signature::new();
    let a1 = sig.add_input(int_ty(32));
    let a2 = sig.add_input(int_ty(32));
    sig.set_return_type(int_ty(32));
    let data = UnitData::new(UnitKind::Function, UnitName::global("foo"), sig);
    let mut b = UnitBuilder::new_anonymous(data);
    let arg1 = b.unit().arg_value(a1);
    let arg2 = b.unit().arg_value(a2);
    let bb0 = b.block();
    let bb1 = b.block();
    b.append_to(bb0);
    let v1 = b.const_int(konst(32, 4));
    let v2 = b.const_int(konst(32, 5));
    let v3 = b.add(v1, v2);
    b.br(bb1);
    b.append_to(bb1);
    let v4 = b.add(v3, arg1);
    b.ret_value(v4);
    let _ = arg2;
    (b.finish(), [arg1, arg2, v1, v3, v4], [bb0, bb1])
}

#[test]
fn builder_layout() {
    let (data, vals, bbs) = build();
    let u = Unit::new_anonymous(&data);
    assert!(u.is_function());
    assert_eq!(u.name().get_name(), Some("foo"));
    assert_eq!(u.blocks(), vec![bbs[0], bbs[1]]);
    assert_eq!(u.entry(), bbs[0]);
    assert_eq!(u.insts(bbs[0]).len(), 4);
    assert_eq!(u.insts(bbs[1]).len(), 2);
    assert_eq!(u.next_block(bbs[0]), Some(bbs[1]));
    assert_eq!(u.prev_block(bbs[0]), None);
    let term = u.terminator(bbs[0]);
    assert_eq!(u.inst_data(term).opcode(), Opcode::Br);
    assert_eq!(u.inst_data(term).blocks(), vec![bbs[1]]);
    // Argument values come first.
    assert_eq!(vals[0], Value(0));
    assert_eq!(vals[1], Value(1));
    assert!(u.get_value_arg(vals[0]).is_some());
    let add = u.value_inst(vals[3]);
    assert_eq!(u.inst_data(add).opcode(), Opcode::Add);
    assert_eq!(u.inst_data(add).args(), vec![vals[2], Value(3)]);
    assert_eq!(u.inst_block(add), Some(bbs[0]));
}

#[test]
fn value_uses() {
    let (data, vals, _) = build();
    let u = Unit::new_anonymous(&data);
    let add2 = u.value_inst(vals[4]);
    assert_eq!(u.uses(vals[3]), vec![add2]);
    assert!(u.has_uses(vals[3]));
    assert!(u.has_one_use(vals[3]));
    assert!(!u.has_uses(vals[1]));
    assert_eq!(u.get_const_int(vals[2]).map(|c| c.width()), Some(32));
    assert!(u.get_const_int(vals[3]).is_none());
}

#[test]
fn replacing_uses() {
    let (data, vals, bbs) = build();
    let mut b = UnitBuilder::new_anonymous(data);
    let add2 = b.unit().value_inst(vals[4]);
    assert_eq!(b.replace_use(vals[3], vals[2]), 1);
    assert!(!b.unit().has_uses(vals[3]));
    assert_eq!(b.unit().inst_data(add2).args(), vec![vals[2], vals[0]]);
    // Replacing a value nobody reads changes nothing.
    assert_eq!(b.replace_use(vals[1], vals[0]), 0);
    // Within a single instruction.
    assert_eq!(b.replace_value_within_inst(vals[2], vals[1], add2), 1);
    assert_eq!(b.unit().inst_data(add2).args(), vec![vals[1], vals[0]]);
    // Block uses.
    let term = b.unit().terminator(bbs[0]);
    assert_eq!(b.replace_block_use(bbs[1], bbs[0]), 1);
    assert_eq!(b.unit().inst_data(term).blocks(), vec![bbs[0]]);
    assert_eq!(b.replace_block_within_inst(bbs[0], bbs[1], term), 1);
    assert_eq!(b.remove_block_use(bbs[1]), 1);
    assert_eq!(b.unit().inst_data(term).blocks(), vec![Block::invalid()]);
}

#[test]
fn deleting_blocks() {
    let (data, vals, bbs) = build();
    let mut b = UnitBuilder::new_anonymous(data);
    let term = b.unit().terminator(bbs[0]);
    b.delete_block(bbs[1]);
    let u = b.unit();
    assert_eq!(u.blocks(), vec![bbs[0]]);
    assert!(!u.is_block_inserted(bbs[1]));
    // The branch to the deleted block now goes nowhere.
    assert_eq!(u.inst_data(term).blocks(), vec![Block::invalid()]);
    // The instructions of the deleted block are gone.
    assert!(u.get_value_inst(vals[4]).is_none());
    assert!(!u.has_uses(vals[3]));
    assert_eq!(u.insts(bbs[0]).len(), 4);
}

#[test]
fn deleting_instructions() {
    let (data, vals, bbs) = build();
    let mut b = UnitBuilder::new_anonymous(data);
    let ret = b.unit().terminator(bbs[1]);
    let add2 = b.unit().value_inst(vals[4]);
    b.delete_inst(ret);
    assert_eq!(b.unit().insts(bbs[1]).len(), 1);
    b.delete_inst(add2);
    assert_eq!(b.unit().insts(bbs[1]).len(), 0);
    assert!(!b.unit().has_uses(vals[3]));
}

#[test]
fn entity_starts_with_halt() {
    let data = UnitData::new(UnitKind::Entity, UnitName::local("top"), Signature::new());
    let u = Unit::new_anonymous(&data);
    assert!(u.is_entity());
    assert_eq!(u.blocks().len(), 1);
    let bb = u.entry();
    assert_eq!(u.inst_data(u.terminator(bb)).opcode(), Opcode::Halt);
    let mut b = UnitBuilder::new_anonymous(data);
    let x = b.const_int(konst(1, 0));
    let s = b.sig(x);
    let _p = b.prb(s);
    // Instructions go before the closing halt.
    let u = b.unit();
    assert_eq!(u.insts(bb).len(), 4);
    assert_eq!(u.inst_data(u.terminator(bb)).opcode(), Opcode::Halt);
}

#[test]
fn aggregates_and_extraction() {
    let data = UnitData::new(UnitKind::Entity, UnitName::local("top"), Signature::new());
    let mut b = UnitBuilder::new_anonymous(data);
    let x = b.const_int(konst(8, 1));
    let y = b.const_int(konst(1, 0));
    let s = b.strukt(vec![x, y]);
    assert_eq!(llhd::assembly::type_string(&b.unit().value_type(s)), "{i8, i1}");
    let f = b.ext_field(s, 1);
    assert_eq!(llhd::assembly::type_string(&b.unit().value_type(f)), "i1");
    let a = b.array_uniform(4, x);
    assert_eq!(llhd::assembly::type_string(&b.unit().value_type(a)), "[4 x i8]");
    let sl = b.ext_slice(a, 1, 2);
    assert_eq!(llhd::assembly::type_string(&b.unit().value_type(sl)), "[2 x i8]");
    let bits = b.ext_slice(x, 0, 3);
    assert_eq!(llhd::assembly::type_string(&b.unit().value_type(bits)), "i3");
    let p = b.var(x);
    assert_eq!(llhd::assembly::type_string(&b.unit().value_type(p)), "i8*");
    let l = b.ld(p);
    assert_eq!(llhd::assembly::type_string(&b.unit().value_type(l)), "i8");
}

#[test]
fn pruning_unused_instructions() {
    let data = UnitData::new(UnitKind::Entity, UnitName::local("top"), Signature::new());
    let mut b = UnitBuilder::new_anonymous(data);
    let c1 = b.const_int(konst(8, 1));
    let c2 = b.const_int(konst(8, 2));
    let sum = b.add(c1, c2);
    let x = b.const_int(konst(8, 3));
    let s = b.sig(x);
    let bb = b.unit().entry();
    assert_eq!(b.unit().insts(bb).len(), 6);
    let sum_inst = b.unit().value_inst(sum);
    let x_inst = b.unit().value_inst(x);
    let halt = b.unit().terminator(bb);
    assert!(!b.prune_if_unused(x_inst));
    assert!(!b.prune_if_unused(halt));
    assert!(b.prune_if_unused(sum_inst));
    // The sum and both constants it read are gone.
    assert_eq!(b.unit().insts(bb).len(), 3);
    assert!(b.unit().get_value_inst(c1).is_none());
    assert!(!b.prune_if_unused(sum_inst));
    let s_inst = b.unit().value_inst(s);
    assert!(b.prune_if_unused(s_inst));
    assert_eq!(b.unit().insts(bb).len(), 1);
}

#[test]
fn name_and_location_hints() {
    let (data, vals, bbs) = build();
    let mut b = UnitBuilder::new_anonymous(data);
    assert_eq!(b.unit().get_anonymous_hint(vals[2]), None);
    b.set_anonymous_hint(vals[2], 7);
    b.set_anonymous_hint(vals[3], 8);
    assert_eq!(b.unit().get_anonymous_hint(vals[2]), Some(7));
    b.set_anonymous_hint(vals[2], 9);
    assert_eq!(b.unit().get_anonymous_hint(vals[2]), Some(9));
    assert_eq!(b.clear_anonymous_hint(vals[2]), Some(9));
    assert_eq!(b.unit().get_anonymous_hint(vals[2]), None);
    assert_eq!(b.unit().get_anonymous_hint(vals[3]), Some(8));
    assert_eq!(b.clear_anonymous_hint(vals[2]), None);

    b.set_anonymous_block_hint(bbs[1], 3);
    assert_eq!(b.unit().get_anonymous_block_hint(bbs[1]), Some(3));
    assert_eq!(b.unit().get_anonymous_block_hint(bbs[0]), None);
    assert_eq!(b.clear_anonymous_block_hint(bbs[1]), Some(3));
    assert_eq!(b.unit().get_anonymous_block_hint(bbs[1]), None);

    let term = b.unit().terminator(bbs[0]);
    assert_eq!(b.unit().location_hint(term), None);
    b.set_location_hint(term, 120);
    assert_eq!(b.unit().location_hint(term), Some(120));
}

#[test]
fn hints_survive_building() {
    let (data, vals, bbs) = build();
    let mut b = UnitBuilder::new_anonymous(data);
    b.set_anonymous_hint(vals[2], 7);
    let term = b.unit().terminator(bbs[1]);
    b.set_location_hint(term, 42);
    b.insert_before(term);
    let v = b.add(vals[0], vals[1]);
    assert_eq!(b.unit().get_anonymous_hint(vals[2]), Some(7));
    assert_eq!(b.unit().get_anonymous_hint(v), None);
    assert_eq!(b.unit().location_hint(term), Some(42));
}
