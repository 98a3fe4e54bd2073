use llhd::ir::module::{LinkedUnit, Module};
use llhd::ir::sig::Signature;
use llhd::ir::unit::{UnitBuilder, UnitData, UnitKind, UnitName};
use llhd::konst::ConstInt;
use llhd::{int_ty, signal_ty};
use num::BigInt;

fn func_sig() -> Signature {
    let mut sig = Signature::new();
    sig.add_input(int_ty(32));
    sig.set_return_type(int_ty(3));
    sig
}

fn proc_sig() -> Signature {
    let mut sig = Signature::new();
    sig.add_input(signal_ty(int_ty(42)));
    sig.add_output(signal_ty(int_ty(9)));
    sig
}

#[test]
fn linking_resolves_declarations_and_definitions() {
    let mut md = Module::new();
    let my_func = md.declare(UnitName::global("my_func"), func_sig());
    let my_proc = md.declare(UnitName::global("my_proc"), proc_sig());

    // A process that calls the external function.
    let data = UnitData::new(UnitKind::Process, UnitName::local("foo"), Signature::new());
    let mut b = UnitBuilder::new_anonymous(data);
    let bb = b.block();
    b.append_to(bb);
    let ext = b.add_extern(UnitName::global("my_func"), func_sig());
    let v1 = b.const_int(ConstInt::new(32, BigInt::from(9001)));
    b.call(ext, vec![v1]);
    b.halt();
    let foo = md.add_unit(b.finish());

    // An entity that instantiates both processes.
    let data = UnitData::new(UnitKind::Entity, UnitName::local("bar"), Signature::new());
    let mut b = UnitBuilder::new_anonymous(data);
    let ext0 = b.add_extern(UnitName::global("my_proc"), proc_sig());
    let ext1 = b.add_extern(UnitName::local("foo"), Signature::new());
    b.inst(ext0, vec![], vec![]);
    b.inst(ext1, vec![], vec![]);
    let bar = md.add_unit(b.finish());

    assert!(!md.is_linked());
    assert_eq!(md.lookup_ext_unit(ext, foo), None);
    assert!(md.links_ok());
    md.link();
    assert!(md.is_linked());
    assert_eq!(md.lookup_ext_unit(ext, foo), Some(LinkedUnit::Decl(my_func)));
    assert_eq!(md.lookup_ext_unit(ext0, bar), Some(LinkedUnit::Decl(my_proc)));
    assert_eq!(md.lookup_ext_unit(ext1, bar), Some(LinkedUnit::Def(foo)));
    assert_eq!(md.lookup_ext_unit(ext1, foo), None);

    // Adding a unit undoes the linking.
    let data = UnitData::new(UnitKind::Process, UnitName::local("baz"), Signature::new());
    md.add_unit(data);
    assert!(!md.is_linked());

    assert_eq!(md.units().len(), 3);
    assert_eq!(md.decls().len(), 2);
    assert_eq!(md.processes().len(), 2);
    assert_eq!(md.entities(), vec![bar]);
    assert_eq!(md.functions().len(), 0);
    assert_eq!(md.symbols().len(), 5);
    assert_eq!(md.global_symbols().len(), 2);
    assert_eq!(md.local_symbols().len(), 3);
}

#[test]
fn linking_failures() {
    // An external unit that nothing provides.
    let mut md = Module::new();
    let data = UnitData::new(UnitKind::Entity, UnitName::local("top"), Signature::new());
    let mut b = UnitBuilder::new_anonymous(data);
    let ext = b.add_extern(UnitName::global("missing"), Signature::new());
    b.inst(ext, vec![], vec![]);
    md.add_unit(b.finish());
    assert!(!md.links_ok());

    // A declaration with other arguments than the reference expects.
    md.declare(UnitName::global("missing"), proc_sig());
    assert!(!md.links_ok());

    // Two definitions of one name.
    let mut md = Module::new();
    md.add_unit(UnitData::new(UnitKind::Process, UnitName::global("p"), Signature::new()));
    md.add_unit(UnitData::new(UnitKind::Process, UnitName::global("p"), Signature::new()));
    assert!(!md.links_ok());

    // A definition that is also declared.
    let mut md = Module::new();
    md.add_unit(UnitData::new(UnitKind::Process, UnitName::global("p"), Signature::new()));
    md.declare(UnitName::global("p"), Signature::new());
    assert!(!md.links_ok());

    // Two declarations of one name are fine.
    let mut md = Module::new();
    md.declare(UnitName::global("p"), Signature::new());
    md.declare(UnitName::global("p"), Signature::new());
    assert!(md.links_ok());
}

#[test]
fn removing_and_hints() {
    let mut md = Module::new();
    let u = md.add_unit(UnitData::new(UnitKind::Process, UnitName::global("p"), Signature::new()));
    let d = md.declare(UnitName::global("q"), Signature::new());
    assert_eq!(md.location_hint(u), None);
    md.set_location_hint(u, 17);
    md.set_location_hint(u, 42);
    assert_eq!(md.location_hint(u), Some(42));
    assert_eq!(md.unit_name(u).get_name(), Some("p"));
    md.remove_unit(u);
    md.remove_decl(d);
    assert_eq!(md.units().len(), 0);
    assert_eq!(md.decls().len(), 0);
    let u2 = md.add_unit(UnitData::new(UnitKind::Process, UnitName::global("r"), Signature::new()));
    assert_ne!(u2, u);
}
