use llhd::assembly::reader::{Label, LocalName};
use llhd::assembly::writer::UnitWriter;
use llhd::ir::keys::Arg;
use llhd::ir::module::Module;
use llhd::ir::unit::{Unit, UnitBuilder, UnitData, UnitKind};
use llhd::konst::{ConstInt, ConstTime, Ratio};
use llhd::assembly::{escape_name, is_acceptable_name_char, signature_string, writer::Writer};
use llhd::ir::sig::Signature;
use llhd::ir::unit::UnitName;
use llhd::{int_ty, signal_ty, void_ty};

#[test]
fn signature_text() {
    let mut sig = Signature::new();
    sig.add_input(int_ty(32));
    sig.add_input(int_ty(1));
    sig.set_return_type(int_ty(3));
    assert_eq!(signature_string(&sig), "(i32, i1) i3");

    let mut sig = Signature::new();
    sig.add_input(signal_ty(int_ty(42)));
    sig.add_output(signal_ty(int_ty(9)));
    assert_eq!(signature_string(&sig), "(i42$) -> (i9$)");

    let sig = Signature::new();
    assert_eq!(signature_string(&sig), "()");

    let mut sig = Signature::new();
    sig.set_return_type(void_ty());
    assert_eq!(signature_string(&sig), "() void");
}

#[test]
fn declarations() {
    let mut w = Writer::new();
    assert_eq!(w.text(), "");
    let mut sig = Signature::new();
    sig.add_input(int_ty(32));
    sig.set_return_type(int_ty(3));
    w.write_declaration(&sig, &UnitName::global("my_func"));
    assert_eq!(w.text(), "declare @my_func (i32) i3\n");
    w.write_declaration(&Signature::new(), &UnitName::local("foo"));
    w.write_declaration(&Signature::new(), &UnitName::anonymous(7));
    assert_eq!(w.finish(), "declare @my_func (i32) i3\ndeclare %foo ()\ndeclare %7 ()\n");

    let mut w = llhd::assembly::irwriter::Writer::new();
    w.write_declaration(&Signature::new(), &UnitName::local("bar"));
    assert_eq!(w.finish(), "declare %bar ()\n");

    let mut w = llhd::mlir::writer::Writer::new();
    w.write_declaration(&Signature::new(), &UnitName::local("bar"));
    w.write_declaration(&Signature::new(), &UnitName::anonymous(3));
    assert_eq!(w.finish(), "declare @bar ()\ndeclare @3 ()\n");
}

#[test]
fn name_escaping() {
    assert!(is_acceptable_name_char('a'));
    assert!(is_acceptable_name_char('Z'));
    assert!(is_acceptable_name_char('0'));
    assert!(is_acceptable_name_char('_'));
    assert!(is_acceptable_name_char('.'));
    assert!(!is_acceptable_name_char('-'));
    assert!(!is_acceptable_name_char(' '));
    assert_eq!(escape_name("foo_bar.1"), "foo_bar.1");
    assert_eq!(escape_name("a-b"), "a\\2db");
    assert_eq!(escape_name("x y"), "x\\20y");
    assert_eq!(escape_name("é"), "\\e9");
    assert_eq!(escape_name(""), "");
}

#[test]
fn local_names() {
    assert_eq!(LocalName::from_name("42"), LocalName::Anonymous(42));
    assert_eq!(LocalName::from_name("foo"), LocalName::Named("foo"));
    assert_eq!(LocalName::from_name("4x"), LocalName::Named("4x"));
    assert_eq!(LocalName::from_name("4294967295"), LocalName::Anonymous(4294967295));
    assert_eq!(LocalName::Anonymous(3).to_string(), "%3");
    assert_eq!(LocalName::Named("bb").to_string(), "%bb");
    assert_eq!(Label(LocalName::Named("entry")).to_string(), "%entry");
}

fn konst(width: usize, value: i64) -> ConstInt {
    ConstInt::new(width, num::BigInt::from(value))
}

/// `func @foo (i32 %a, i32 %0) i32` computing `4 + 5 + %a` over two blocks,
/// the second one named `next`.
fn function_unit() -> UnitData {
    let mut sig = Signature::new();
    let a1 = sig.add_input(int_ty(32));
    let a2 = sig.add_input(int_ty(32));
    sig.set_return_type(int_ty(32));
    let data = UnitData::new(UnitKind::Function, UnitName::global("foo"), sig);
    let mut b = UnitBuilder::new_anonymous(data);
    let arg1 = b.unit().arg_value(a1);
    let _arg2 = b.unit().arg_value(a2);
    b.set_name(arg1, "a".to_string());
    let bb0 = b.block();
    let bb1 = b.named_block("next".to_string());
    b.append_to(bb0);
    let v1 = b.const_int(konst(32, 4));
    let v2 = b.const_int(konst(32, 5));
    let v3 = b.add(v1, v2);
    b.br(bb1);
    b.append_to(bb1);
    let v4 = b.add(v3, arg1);
    b.ret_value(v4);
    b.finish()
}

#[test]
fn unit_text_function() {
    let data = function_unit();
    let mut w = Writer::new();
    w.write_unit(Unit::new_anonymous(&data));
    assert_eq!(
        w.finish(),
        "func @foo (i32 %a, i32 %0) i32 {\n\
         1:\n    %2 = const i32 4\n    %3 = const i32 5\n    %4 = add i32 %2, %3\n    br %next\n\
         next:\n    %5 = add i32 %4, %a\n    ret i32 %5\n}\n"
    );
}

#[test]
fn unit_text_process() {
    let mut sig = Signature::new();
    let c = sig.add_input(signal_ty(int_ty(1)));
    let data = UnitData::new(UnitKind::Process, UnitName::global("p"), sig);
    let mut b = UnitBuilder::new_anonymous(data);
    let cv = b.unit().arg_value(c);
    b.set_name(cv, "c".to_string());
    let init = b.named_block("init".to_string());
    let done = b.named_block("done".to_string());
    b.append_to(init);
    let p = b.prb(cv);
    b.br_cond(p, init, done);
    b.append_to(done);
    b.wait(init, vec![cv]);
    let data = b.finish();
    let mut w = Writer::new();
    w.write_unit(Unit::new_anonymous(&data));
    assert_eq!(
        w.finish(),
        "proc @p (i1$ %c) -> () {\ninit:\n    %0 = prb i1$ %c\n    br %0, %init, %done\ndone:\n    wait %init, %c\n}\n"
    );
}

#[test]
fn unit_text_entity() {
    let mut sig = Signature::new();
    let d = sig.add_input(signal_ty(int_ty(32)));
    let q = sig.add_output(signal_ty(int_ty(32)));
    let data = UnitData::new(UnitKind::Entity, UnitName::global("e"), sig);
    let mut b = UnitBuilder::new_anonymous(data);
    let dv = b.unit().arg_value(d);
    let qv = b.unit().arg_value(q);
    b.set_name(dv, "d".to_string());
    b.set_name(qv, "q".to_string());
    let x = b.prb(dv);
    let t = b.const_time(ConstTime::new(Ratio::new(1, 1_000_000_000), 0, 0));
    b.drv(qv, x, t);
    let data = b.finish();
    let mut w = Writer::new();
    w.write_unit(Unit::new_anonymous(&data));
    assert_eq!(
        w.finish(),
        "entity @e (i32$ %d) -> (i32$ %q) {\n    %0 = prb i32$ %d\n    %1 = const time 1ns\n    drv i32$ %q, %0, %1\n}\n"
    );
}

#[test]
fn module_text() {
    let mut m = Module::new();
    m.add_unit(function_unit());
    let mut sig = Signature::new();
    sig.add_input(int_ty(32));
    sig.set_return_type(int_ty(32));
    m.declare(UnitName::global("bar"), sig);
    let mut w = Writer::new();
    w.write_module(&m);
    let text = w.finish();
    assert_eq!(llhd::assembly::write_module_string(&m), text);
    assert!(text.starts_with("func @foo (i32 %a, i32 %0) i32 {\n"));
    assert!(text.ends_with("    ret i32 %5\n}\n\ndeclare @bar (i32) i32\n"));
}

#[test]
fn inst_text_names_result_first() {
    let data = function_unit();
    let u = Unit::new_anonymous(&data);
    let add = u.insts(u.blocks()[0])[2];
    let mut uw = UnitWriter::new(u);
    uw.write_inst(add);
    assert_eq!(uw.text(), "%0 = add i32 %1, %2");
    uw.write_value_name(u.arg_value(Arg(0)));
    uw.write_block_value(u.blocks()[1]);
    uw.write_block_name(u.blocks()[0]);
    uw.write_value_use(u.arg_value(Arg(1)), true);
    assert_eq!(uw.finish(), "%0 = add i32 %1, %2%a%next3i32 %4");
}

#[test]
fn unit_text_name_collisions() {
    let mut sig = Signature::new();
    let a = sig.add_input(int_ty(8));
    let b = sig.add_input(int_ty(8));
    sig.set_return_type(void_ty());
    let data = UnitData::new(UnitKind::Function, UnitName::global("f"), sig);
    let mut ub = UnitBuilder::new_anonymous(data);
    let av = ub.unit().arg_value(a);
    let bv = ub.unit().arg_value(b);
    ub.set_name(av, "x".to_string());
    ub.set_name(bv, "x".to_string());
    let bb = ub.named_block("x".to_string());
    ub.append_to(bb);
    let s = ub.add(av, bv);
    ub.set_name(s, "a b".to_string());
    ub.ret();
    let data = ub.finish();
    let mut w = Writer::new();
    w.write_unit(Unit::new_anonymous(&data));
    assert_eq!(
        w.finish(),
        "func @f (i8 %x, i8 %x1) void {\nx2:\n    %a\\20b = add i8 %x, %x1\n    ret\n}\n"
    );
}

#[test]
fn writability_checks() {
    let data = function_unit();
    let u = Unit::new_anonymous(&data);
    assert!(llhd::assembly::writer::unit_is_writable(u));
    for bb in u.blocks() {
        for inst in u.insts(bb) {
            assert!(llhd::assembly::writer::inst_is_writable(u, inst));
        }
    }
    let mut m = Module::new();
    m.add_unit(function_unit());
    assert!(llhd::assembly::writer::module_is_writable(&m));
}
