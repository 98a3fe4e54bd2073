use llhd::assembly::type_string;
use llhd::{array_ty, entity_ty, enum_ty, func_ty, int_ty, pointer_ty, signal_ty, struct_ty, time_ty, void_ty};

#[test]
fn type_constructors_and_queries() {
    let t = int_ty(32);
    assert!(t.is_int());
    assert_eq!(t.unwrap_int(), 32);
    assert!(!t.is_signal());
    let s = signal_ty(int_ty(1));
    assert!(s.is_signal());
    assert_eq!(s.unwrap_signal().unwrap_int(), 1);
    let a = array_ty(4, int_ty(8));
    assert!(a.is_array());
    assert_eq!(a.unwrap_array().0, 4);
    assert_eq!(a.unwrap_array().1.unwrap_int(), 8);
    let st = struct_ty(vec![int_ty(1), time_ty()]);
    assert!(st.is_struct());
    assert_eq!(st.unwrap_struct().len(), 2);
    assert!(st.unwrap_struct().get(1).is_time());
    assert!(enum_ty(3).is_enum());
    assert_eq!(enum_ty(3).unwrap_enum(), 3);
    assert!(pointer_ty(void_ty()).is_pointer());
    assert!(void_ty().is_void());
}

#[test]
fn type_equality() {
    assert!(int_ty(8).same_as(&int_ty(8)));
    assert!(!int_ty(8).same_as(&int_ty(9)));
    assert!(!int_ty(8).same_as(&signal_ty(int_ty(8))));
    let a = struct_ty(vec![int_ty(1), array_ty(2, int_ty(3))]);
    let b = a.duplicate();
    assert!(a.same_as(&b));
}

#[test]
fn type_text() {
    assert_eq!(type_string(&void_ty()), "void");
    assert_eq!(type_string(&time_ty()), "time");
    assert_eq!(type_string(&int_ty(32)), "i32");
    assert_eq!(type_string(&enum_ty(42)), "n42");
    assert_eq!(type_string(&pointer_ty(int_ty(32))), "i32*");
    assert_eq!(type_string(&signal_ty(int_ty(1))), "i1$");
    assert_eq!(type_string(&array_ty(4, int_ty(32))), "[4 x i32]");
    assert_eq!(type_string(&struct_ty(vec![int_ty(8), int_ty(32)])), "{i8, i32}");
    assert_eq!(type_string(&struct_ty(vec![])), "{}");
    assert_eq!(type_string(&func_ty(vec![int_ty(32)], void_ty())), "(i32) void");
    assert_eq!(
        type_string(&entity_ty(vec![int_ty(8), int_ty(8)], vec![int_ty(32)])),
        "(i8, i8) -> (i32)"
    );
    assert_eq!(type_string(&signal_ty(array_ty(2, pointer_ty(int_ty(1))))), "[2 x i1*]$");
}

#[test]
fn signature_directions() {
    let mut s = llhd::ir::sig::Signature::new();
    let a = s.add_input(llhd::int_ty(1));
    let b = s.add_output(llhd::int_ty(2));
    let c = s.add_input(llhd::int_ty(3));
    assert!(s.is_input(a) && !s.is_output(a));
    assert!(s.is_output(b) && !s.is_input(b));
    assert_eq!(s.inputs(), vec![a, c]);
    assert_eq!(s.outputs(), vec![b]);
    assert_eq!(s.args(), vec![a, c, b]);
}
