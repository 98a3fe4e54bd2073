//! Emitting CIRCT IR.

use crate::assembly::{push_str, sig_text, type_text, write_signature, write_type};
use crate::ir::inst::{compare_operator_of, opcode_name, Opcode};
use crate::ir::sig::Signature;
use crate::ir::unit::{UnitKind, UnitName};
use crate::konst::{decimal, push_decimal};
use crate::ty::{int_ty, Type, TypeKind, TypeList};
use vstd::prelude::*;

verus! {

/// The CIRCT text of a unit name: every unit is a symbol.
pub open spec fn mlir_unit_name_text(n: UnitName) -> Seq<char> {
    match n {
        UnitName::Anonymous(id) => "@"@ + decimal(id as nat),
        UnitName::Local(s) => "@"@ + s@,
        UnitName::Global(s) => "@"@ + s@,
    }
}

/// The CIRCT text of a declaration of an external unit.
pub open spec fn mlir_declaration_text(name: UnitName, sig: crate::ir::sig::SignatureView) -> Seq<char> {
    "declare "@ + mlir_unit_name_text(name) + " "@ + sig_text(sig) + "\n"@
}

/// Collects emitted CIRCT IR text.
pub struct Writer {
    text: String,
}

impl Writer {
    /// The text emitted so far.
    pub closed spec fn spec_text(&self) -> Seq<char> {
        self.text@
    }

    /// Create a new writer that has emitted nothing yet.
    pub fn new() -> (w: Self)
        ensures
            w.spec_text() == Seq::<char>::empty(),
    {
        Writer { text: String::new() }
    }

    /// Emit a declaration of an external unit.
    pub fn write_declaration(&mut self, sig: &Signature, name: &UnitName)
        requires
            sig@.wf(),
        ensures
            final(self).spec_text() == old(self).spec_text() + mlir_declaration_text(*name, sig@),
    {
        let ghost start = self.text@;
        push_str(&mut self.text, "declare ");
        push_str(&mut self.text, "@");
        match name {
            UnitName::Anonymous(id) => push_decimal(&mut self.text, *id as u128),
            UnitName::Local(s) => push_str(&mut self.text, s.as_str()),
            UnitName::Global(s) => push_str(&mut self.text, s.as_str()),
        }
        push_str(&mut self.text, " ");
        write_signature(&mut self.text, sig);
        push_str(&mut self.text, "\n");
        proof {
            assert(self.text@ =~= start + mlir_declaration_text(*name, sig@));
        }
    }

    /// The text emitted so far.
    pub fn text(&self) -> (s: &str)
        ensures
            s@ == self.spec_text(),
    {
        self.text.as_str()
    }

    /// Finish emitting and hand out the text.
    pub fn finish(self) -> (s: String)
        ensures
            s@ == self.spec_text(),
    {
        self.text
    }
}

/// The type is built from integers by arrays and structs only.
pub open spec fn has_bit_width(ty: Type) -> bool
    decreases ty,
{
    match ty {
        TypeKind::IntType(_) => true,
        TypeKind::ArrayType(_, elem) => has_bit_width(*elem),
        TypeKind::StructType(fields) => fields_have_bit_width(fields),
        _ => false,
    }
}

/// Every field type is built from integers by arrays and structs only.
pub open spec fn fields_have_bit_width(l: TypeList) -> bool
    decreases l,
{
    match l {
        TypeList::Nil => true,
        TypeList::Cons(head, tail) => has_bit_width(*head) && fields_have_bit_width(*tail),
    }
}

/// The number of bits in a value of the type.
pub open spec fn bit_width(ty: Type) -> nat
    decreases ty,
{
    match ty {
        TypeKind::IntType(w) => w as nat,
        TypeKind::ArrayType(n, elem) => n as nat * bit_width(*elem),
        TypeKind::StructType(fields) => fields_bit_width(fields),
        _ => 0,
    }
}

/// The number of bits in values of all the field types together.
pub open spec fn fields_bit_width(l: TypeList) -> nat
    decreases l,
{
    match l {
        TypeList::Nil => 0,
        TypeList::Cons(head, tail) => bit_width(*head) + fields_bit_width(*tail),
    }
}

/// The widths of the type and of every type inside it fit in a `usize`.
pub open spec fn widths_fit(ty: Type) -> bool
    decreases ty,
{
    &&& bit_width(ty) <= usize::MAX
    &&& match ty {
        TypeKind::ArrayType(_, elem) => widths_fit(*elem),
        TypeKind::StructType(fields) => fields_widths_fit(fields),
        _ => true,
    }
}

/// The widths of the field types fit in a `usize`.
pub open spec fn fields_widths_fit(l: TypeList) -> bool
    decreases l,
{
    match l {
        TypeList::Nil => true,
        TypeList::Cons(head, tail) => widths_fit(*head) && fields_widths_fit(*tail),
    }
}

/// The number of bits in a value of a type built from integers by arrays
/// and structs.
pub fn get_type_bit_width(ty: &Type) -> (w: usize)
    requires
        has_bit_width(*ty),
        widths_fit(*ty),
    ensures
        w == bit_width(*ty),
    decreases ty,
{
    match ty {
        TypeKind::IntType(w) => *w,
        TypeKind::ArrayType(n, elem) => {
            let e = get_type_bit_width(elem);
            *n * e
        },
        TypeKind::StructType(fields) => fields_bit_width_of(fields),
        _ => {
            proof {
                assert(false);
            }
            0
        },
    }
}

/// The number of bits in values of all the field types together.
fn fields_bit_width_of(l: &TypeList) -> (w: usize)
    requires
        fields_have_bit_width(*l),
        fields_widths_fit(*l),
        fields_bit_width(*l) <= usize::MAX,
    ensures
        w == fields_bit_width(*l),
    decreases l,
{
    match l {
        TypeList::Nil => 0,
        TypeList::Cons(head, tail) => {
            let h = get_type_bit_width(head);
            let t = fields_bit_width_of(tail);
            h + t
        },
    }
}

/// The number of bits needed to write `n` in binary; zero for zero.
pub open spec fn bit_len(n: nat) -> nat
    decreases n,
{
    if n == 0 {
        0
    } else {
        1 + bit_len(n / 2)
    }
}

/// The number of elements or bits of a type that values of the type are
/// indexed by: arrays by element, integers by bit, signals by what they
/// carry.
pub open spec fn index_width(ty: Type) -> nat
    decreases ty,
{
    match ty {
        TypeKind::ArrayType(n, _) => n as nat,
        TypeKind::IntType(w) => w as nat,
        TypeKind::SignalType(inner) => index_width(*inner),
        _ => 0,
    }
}

/// The type can be indexed: an array or integer, possibly inside signals,
/// with at least one element or bit.
pub open spec fn indexable(ty: Type) -> bool
    decreases ty,
{
    match ty {
        TypeKind::ArrayType(n, _) => n >= 1,
        TypeKind::IntType(w) => w >= 1,
        TypeKind::SignalType(inner) => indexable(*inner),
        _ => false,
    }
}

/// A number takes at most as many bits as its value.
proof fn lemma_bit_len_le(n: nat)
    ensures
        bit_len(n) <= n,
    decreases n,
{
    if n > 0 {
        lemma_bit_len_le(n / 2);
    }
}

/// A positive number takes at least one bit.
proof fn lemma_bit_len_pos(n: nat)
    requires
        n > 0,
    ensures
        bit_len(n) >= 1,
{
}

/// The integer type wide enough to hold any index into a value of the
/// type: as many bits as it takes to write the largest index.
pub fn create_index_type(ty: &Type) -> (t: Type)
    requires
        indexable(*ty),
    ensures
        t == TypeKind::IntType(bit_len((index_width(*ty) - 1) as nat) as usize),
    decreases ty,
{
    let width = match ty {
        TypeKind::ArrayType(n, _) => *n,
        TypeKind::IntType(w) => *w,
        TypeKind::SignalType(inner) => {
            return create_index_type(inner);
        },
        _ => {
            proof {
                assert(false);
            }
            1
        },
    };
    let mut x = width - 1;
    let mut bits: usize = 0;
    proof {
        lemma_bit_len_le((width - 1) as nat);
    }
    while x > 0
        invariant
            bits + bit_len(x as nat) == bit_len((width - 1) as nat),
            bit_len((width - 1) as nat) <= width - 1,
        decreases x,
    {
        proof {
            lemma_bit_len_pos(x as nat);
        }
        x = x / 2;
        bits = bits + 1;
    }
    int_ty(bits)
}

} // verus!

verus! {

/// The CIRCT text of a type.
pub open spec fn mlir_type_text(t: TypeKind) -> Seq<char>
    decreases t,
{
    match t {
        TypeKind::VoidType => "()"@,
        TypeKind::TimeType => "!llhd.time"@,
        TypeKind::IntType(w) => "i"@ + decimal(w as nat),
        TypeKind::EnumType(n) => "n"@ + decimal(n as nat),
        TypeKind::PointerType(inner) => "!llhd.ptr<"@ + mlir_type_text(*inner) + ">"@,
        TypeKind::SignalType(inner) => "!llhd.sig<"@ + mlir_type_text(*inner) + ">"@,
        TypeKind::ArrayType(n, elem) => "!hw.array<"@ + decimal(n as nat) + "x"@ + mlir_type_text(*elem) + ">"@,
        TypeKind::StructType(fields) => "!hw.struct<"@ + mlir_fields_text(fields, 0, true) + ">"@,
        TypeKind::FuncType(args, ret) => "("@ + mlir_list_text(args, true) + ") -> "@ + type_text(*ret),
        TypeKind::EntityType(ins, outs) => "("@ + mlir_list_text(ins, true) + ") -> ("@ + mlir_list_text(outs, true)
            + ")"@,
    }
}

/// The CIRCT text of a list of types, separated by commas; `first` is set
/// when no type precedes the list.
pub open spec fn mlir_list_text(l: TypeList, first: bool) -> Seq<char>
    decreases l,
{
    match l {
        TypeList::Nil => Seq::empty(),
        TypeList::Cons(head, tail) => (if first {
            Seq::empty()
        } else {
            ", "@
        }) + mlir_type_text(*head) + mlir_list_text(*tail, false),
    }
}

/// The CIRCT text of struct fields from field number `i` on: each field is
/// named `f` and its number, since a field name cannot start with a digit.
pub open spec fn mlir_fields_text(l: TypeList, i: nat, first: bool) -> Seq<char>
    decreases l,
{
    match l {
        TypeList::Nil => Seq::empty(),
        TypeList::Cons(head, tail) => (if first {
            Seq::empty()
        } else {
            ", "@
        }) + "f"@ + decimal(i) + ": "@ + mlir_type_text(*head) + mlir_fields_text(*tail, i + 1, false),
    }
}

/// Every struct in the type has fewer fields than a `usize` can count.
pub open spec fn fields_countable(t: TypeKind) -> bool
    decreases t,
{
    match t {
        TypeKind::PointerType(inner) => fields_countable(*inner),
        TypeKind::SignalType(inner) => fields_countable(*inner),
        TypeKind::ArrayType(_, elem) => fields_countable(*elem),
        TypeKind::StructType(fields) => fields.seq().len() <= usize::MAX && list_countable(fields),
        TypeKind::FuncType(args, _) => list_countable(args),
        TypeKind::EntityType(ins, outs) => list_countable(ins) && list_countable(outs),
        _ => true,
    }
}

/// Every struct in the listed types has fewer fields than a `usize` can
/// count.
pub open spec fn list_countable(l: TypeList) -> bool
    decreases l,
{
    match l {
        TypeList::Nil => true,
        TypeList::Cons(head, tail) => fields_countable(*head) && list_countable(*tail),
    }
}

/// Append the CIRCT text of a type.
pub fn write_mlir_type(out: &mut String, t: &TypeKind)
    requires
        fields_countable(*t),
    ensures
        final(out)@ == old(out)@ + mlir_type_text(*t),
    decreases t,
{
    let ghost start = out@;
    match t {
        TypeKind::VoidType => push_str(out, "()"),
        TypeKind::TimeType => push_str(out, "!llhd.time"),
        TypeKind::IntType(w) => {
            push_str(out, "i");
            push_decimal(out, *w as u128);
        },
        TypeKind::EnumType(n) => {
            push_str(out, "n");
            push_decimal(out, *n as u128);
        },
        TypeKind::PointerType(inner) => {
            push_str(out, "!llhd.ptr<");
            write_mlir_type(out, inner);
            push_str(out, ">");
        },
        TypeKind::SignalType(inner) => {
            push_str(out, "!llhd.sig<");
            write_mlir_type(out, inner);
            push_str(out, ">");
        },
        TypeKind::ArrayType(n, elem) => {
            push_str(out, "!hw.array<");
            push_decimal(out, *n as u128);
            push_str(out, "x");
            write_mlir_type(out, elem);
            push_str(out, ">");
        },
        TypeKind::StructType(fields) => {
            push_str(out, "!hw.struct<");
            write_mlir_fields(out, fields, 0, true);
            push_str(out, ">");
        },
        TypeKind::FuncType(args, ret) => {
            push_str(out, "(");
            write_mlir_list(out, args, true);
            push_str(out, ") -> ");
            write_type(out, ret);
        },
        TypeKind::EntityType(ins, outs) => {
            push_str(out, "(");
            write_mlir_list(out, ins, true);
            push_str(out, ") -> (");
            write_mlir_list(out, outs, true);
            push_str(out, ")");
        },
    }
    proof {
        assert(out@ =~= start + mlir_type_text(*t));
    }
}

/// Append the CIRCT text of a list of types.
fn write_mlir_list(out: &mut String, l: &TypeList, first: bool)
    requires
        list_countable(*l),
    ensures
        final(out)@ == old(out)@ + mlir_list_text(*l, first),
    decreases l,
{
    let ghost start = out@;
    match l {
        TypeList::Nil => {},
        TypeList::Cons(head, tail) => {
            if !first {
                push_str(out, ", ");
            }
            write_mlir_type(out, head);
            write_mlir_list(out, tail, false);
        },
    }
    proof {
        assert(out@ =~= start + mlir_list_text(*l, first));
    }
}

/// Append the CIRCT text of struct fields from field number `i` on.
fn write_mlir_fields(out: &mut String, l: &TypeList, i: usize, first: bool)
    requires
        list_countable(*l),
        i + l.seq().len() <= usize::MAX,
    ensures
        final(out)@ == old(out)@ + mlir_fields_text(*l, i as nat, first),
    decreases l,
{
    let ghost start = out@;
    match l {
        TypeList::Nil => {},
        TypeList::Cons(head, tail) => {
            if !first {
                push_str(out, ", ");
            }
            push_str(out, "f");
            push_decimal(out, i as u128);
            push_str(out, ": ");
            write_mlir_type(out, head);
            write_mlir_fields(out, tail, i + 1, false);
        },
    }
    proof {
        assert(out@ =~= start + mlir_fields_text(*l, i as nat, first));
    }
}

/// The CIRCT text of a type.
pub fn mlir_type_string(t: &TypeKind) -> (s: String)
    requires
        fields_countable(*t),
    ensures
        s@ == mlir_type_text(*t),
{
    let mut s = String::new();
    write_mlir_type(&mut s, t);
    proof {
        assert(s@ =~= mlir_type_text(*t));
    }
    s
}

/// The CIRCT operation that starts a unit of the kind.
pub open spec fn mlir_unit_kind_text(k: UnitKind) -> Seq<char> {
    match k {
        UnitKind::Function => "func"@,
        UnitKind::Process => "llhd.proc"@,
        UnitKind::Entity => "llhd.entity"@,
    }
}

/// The CIRCT operation that starts a unit of the kind.
pub fn mlir_unit_kind(k: UnitKind) -> (s: &'static str)
    ensures
        s@ == mlir_unit_kind_text(k),
{
    match k {
        UnitKind::Function => "func",
        UnitKind::Process => "llhd.proc",
        UnitKind::Entity => "llhd.entity",
    }
}

/// The CIRCT operation that an opcode maps to, where a single one does.
pub open spec fn mlir_opcode_text(op: Opcode) -> Option<Seq<char>> {
    match op {
        Opcode::ConstInt => Some("hw.constant"@),
        Opcode::ConstTime => Some("llhd.constant_time"@),
        Opcode::ArrayUniform => Some("hw.array_create"@),
        Opcode::Array => Some("hw.array_create"@),
        Opcode::Struct => Some("hw.struct_create"@),
        Opcode::Not => Some("comb.xor"@),
        Opcode::Neg => Some("comb.mul"@),
        Opcode::Add => Some("comb.add"@),
        Opcode::Sub => Some("comb.sub"@),
        Opcode::And => Some("comb.and"@),
        Opcode::Or => Some("comb.or"@),
        Opcode::Xor => Some("comb.xor"@),
        Opcode::Smul => Some("comb.mul"@),
        Opcode::Sdiv => Some("comb.divs"@),
        Opcode::Smod => Some("comb.mods"@),
        Opcode::Srem => Some("comb.mods"@),
        Opcode::Umul => Some("comb.mul"@),
        Opcode::Udiv => Some("comb.divu"@),
        Opcode::Umod => Some("comb.modu"@),
        Opcode::Urem => Some("comb.modu"@),
        Opcode::Eq => Some("comb.icmp \"eq\""@),
        Opcode::Neq => Some("comb.icmp \"ne\""@),
        Opcode::Slt => Some("comb.icmp \"slt\""@),
        Opcode::Sgt => Some("comb.icmp \"sgt\""@),
        Opcode::Sle => Some("comb.icmp \"sle\""@),
        Opcode::Sge => Some("comb.icmp \"sge\""@),
        Opcode::Ult => Some("comb.icmp \"ult\""@),
        Opcode::Ugt => Some("comb.icmp \"ugt\""@),
        Opcode::Ule => Some("comb.icmp \"ule\""@),
        Opcode::Uge => Some("comb.icmp \"uge\""@),
        Opcode::Shl => Some("llhd.shl"@),
        Opcode::Shr => Some("llhd.shr"@),
        Opcode::Mux => Some("hw.array_get"@),
        Opcode::Reg => Some("llhd.reg"@),
        Opcode::Con => Some("llhd.con"@),
        Opcode::Call => Some("call"@),
        Opcode::Inst => Some("llhd.inst"@),
        Opcode::Sig => Some("llhd.sig"@),
        Opcode::Drv => Some("llhd.drv"@),
        Opcode::DrvCond => Some("llhd.drv"@),
        Opcode::Prb => Some("llhd.prb"@),
        Opcode::Var => Some("llhd.var"@),
        Opcode::Ld => Some("llhd.load"@),
        Opcode::St => Some("llhd.store"@),
        Opcode::Halt => Some("llhd.halt"@),
        Opcode::Ret => Some("return"@),
        Opcode::RetValue => Some("return"@),
        Opcode::Br => Some("cf.br"@),
        Opcode::BrCond => Some("cf.cond_br"@),
        Opcode::Wait => Some("llhd.wait"@),
        Opcode::WaitTime => Some("llhd.wait"@),
        _ => None,
    }
}

/// The opcode that stands for the group of opcodes mapped to one CIRCT
/// operation: bit inversion is an exclusive or (with all ones), negation
/// and both multiplications are `comb.mul`, signed modulo and remainder are
/// `comb.mods` and unsigned ones `comb.modu`; the uniform and listed arrays,
/// plain and conditional drives, returns with and without a value, and waits
/// with and without a time share their operation.
pub open spec fn mlir_family(op: Opcode) -> Opcode {
    match op {
        Opcode::Not => Opcode::Xor,
        Opcode::Neg => Opcode::Smul,
        Opcode::Umul => Opcode::Smul,
        Opcode::Srem => Opcode::Smod,
        Opcode::Urem => Opcode::Umod,
        Opcode::Array => Opcode::ArrayUniform,
        Opcode::DrvCond => Opcode::Drv,
        Opcode::RetValue => Opcode::Ret,
        Opcode::WaitTime => Opcode::Wait,
        _ => op,
    }
}

/// Two opcodes with a CIRCT operation map to the same one exactly when they
/// belong to the same group: an addition and a subtraction, or two different
/// comparisons, never share an operation.
#[verifier::rlimit(100)]
#[verifier::spinoff_prover]
pub proof fn lemma_mlir_opcodes_distinct(a: Opcode, b: Opcode)
    requires
        mlir_opcode_text(a) is Some,
        mlir_opcode_text(b) is Some,
    ensures
        (mlir_opcode_text(a) == mlir_opcode_text(b)) <==> (mlir_family(a) == mlir_family(b)),
{
    reveal_strlit("call");
    reveal_strlit("cf.br");
    reveal_strlit("cf.cond_br");
    reveal_strlit("comb.add");
    reveal_strlit("comb.and");
    reveal_strlit("comb.divs");
    reveal_strlit("comb.divu");
    reveal_strlit("comb.icmp \"eq\"");
    reveal_strlit("comb.icmp \"ne\"");
    reveal_strlit("comb.icmp \"sge\"");
    reveal_strlit("comb.icmp \"sgt\"");
    reveal_strlit("comb.icmp \"sle\"");
    reveal_strlit("comb.icmp \"slt\"");
    reveal_strlit("comb.icmp \"uge\"");
    reveal_strlit("comb.icmp \"ugt\"");
    reveal_strlit("comb.icmp \"ule\"");
    reveal_strlit("comb.icmp \"ult\"");
    reveal_strlit("comb.mods");
    reveal_strlit("comb.modu");
    reveal_strlit("comb.mul");
    reveal_strlit("comb.or");
    reveal_strlit("comb.sub");
    reveal_strlit("comb.xor");
    reveal_strlit("hw.array_create");
    reveal_strlit("hw.array_get");
    reveal_strlit("hw.constant");
    reveal_strlit("hw.struct_create");
    reveal_strlit("llhd.con");
    reveal_strlit("llhd.constant_time");
    reveal_strlit("llhd.drv");
    reveal_strlit("llhd.halt");
    reveal_strlit("llhd.inst");
    reveal_strlit("llhd.load");
    reveal_strlit("llhd.prb");
    reveal_strlit("llhd.reg");
    reveal_strlit("llhd.shl");
    reveal_strlit("llhd.shr");
    reveal_strlit("llhd.sig");
    reveal_strlit("llhd.store");
    reveal_strlit("llhd.var");
    reveal_strlit("llhd.wait");
    reveal_strlit("return");
    reveal_strlit("comb.");
    reveal_strlit("llhd.");
    reveal_strlit("comb.icmp \"");
    reveal_strlit("\"");
    if mlir_opcode_text(a) == mlir_opcode_text(b) && mlir_family(a) != mlir_family(b) {
        let x = mlir_opcode_text(a)->0;
        let y = mlir_opcode_text(b)->0;
        assert(x.len() == y.len());
        assert(x[0] == y[0]);
        assert(x[1] == y[1]);
        assert(x[2] == y[2]);
        assert(x[3] == y[3]);
        assert(x[4] == y[4]);
        assert(x[5] == y[5]);
        assert(x[6] == y[6]);
        assert(x[7] == y[7]);
        assert(x[8] == y[8]);
        assert(x[9] == y[9]);
        assert(x[10] == y[10]);
        assert(x[11] == y[11]);
        assert(x[12] == y[12]);
        assert(x[13] == y[13]);
        assert(x[14] == y[14]);
        assert(x[15] == y[15]);
        assert(x[16] == y[16]);
        assert(x[17] == y[17]);
    }
}

/// The CIRCT operation of an opcode is named after the opcode's mnemonic:
/// addition, subtraction and the bitwise operations are `comb.` and the
/// mnemonic, the comparisons other than inequality are `comb.icmp` with the
/// mnemonic quoted, the divisions and modulos are `comb.` and the mnemonic
/// with its sign letter moved to the end, and the shifts, signals, drives,
/// probes, variables, registers, connections, instances, halts and waits are
/// `llhd.` and the mnemonic.
pub proof fn lemma_mlir_opcode_names(op: Opcode)
    ensures
        (op == Opcode::Add || op == Opcode::Sub || op == Opcode::And || op == Opcode::Or || op == Opcode::Xor)
            ==> mlir_opcode_text(op) == Some("comb."@ + opcode_name(op)),
        (compare_operator_of(op) is Some && op != Opcode::Neq) ==> mlir_opcode_text(op) == Some(
            "comb.icmp \""@ + opcode_name(op) + "\""@,
        ),
        (op == Opcode::Sdiv || op == Opcode::Udiv || op == Opcode::Smod || op == Opcode::Umod) ==> mlir_opcode_text(op)
            == Some("comb."@ + opcode_name(op).subrange(1, opcode_name(op).len() as int) + seq![opcode_name(op)[0]]),
        (op == Opcode::Shl || op == Opcode::Shr || op == Opcode::Sig || op == Opcode::Drv || op == Opcode::DrvCond
            || op == Opcode::Prb || op == Opcode::Var || op == Opcode::Reg || op == Opcode::Con || op == Opcode::Inst
            || op == Opcode::Halt || op == Opcode::Wait || op == Opcode::WaitTime) ==> mlir_opcode_text(op) == Some(
            "llhd."@ + opcode_name(op),
        ),
{
    reveal_strlit("call");
    reveal_strlit("cf.br");
    reveal_strlit("cf.cond_br");
    reveal_strlit("comb.add");
    reveal_strlit("comb.and");
    reveal_strlit("comb.divs");
    reveal_strlit("comb.divu");
    reveal_strlit("comb.icmp \"eq\"");
    reveal_strlit("comb.icmp \"ne\"");
    reveal_strlit("comb.icmp \"sge\"");
    reveal_strlit("comb.icmp \"sgt\"");
    reveal_strlit("comb.icmp \"sle\"");
    reveal_strlit("comb.icmp \"slt\"");
    reveal_strlit("comb.icmp \"uge\"");
    reveal_strlit("comb.icmp \"ugt\"");
    reveal_strlit("comb.icmp \"ule\"");
    reveal_strlit("comb.icmp \"ult\"");
    reveal_strlit("comb.mods");
    reveal_strlit("comb.modu");
    reveal_strlit("comb.mul");
    reveal_strlit("comb.or");
    reveal_strlit("comb.sub");
    reveal_strlit("comb.xor");
    reveal_strlit("hw.array_create");
    reveal_strlit("hw.array_get");
    reveal_strlit("hw.constant");
    reveal_strlit("hw.struct_create");
    reveal_strlit("llhd.con");
    reveal_strlit("llhd.constant_time");
    reveal_strlit("llhd.drv");
    reveal_strlit("llhd.halt");
    reveal_strlit("llhd.inst");
    reveal_strlit("llhd.load");
    reveal_strlit("llhd.prb");
    reveal_strlit("llhd.reg");
    reveal_strlit("llhd.shl");
    reveal_strlit("llhd.shr");
    reveal_strlit("llhd.sig");
    reveal_strlit("llhd.store");
    reveal_strlit("llhd.var");
    reveal_strlit("llhd.wait");
    reveal_strlit("return");
    reveal_strlit("comb.");
    reveal_strlit("llhd.");
    reveal_strlit("comb.icmp \"");
    reveal_strlit("\"");
    reveal_strlit("add");
    reveal_strlit("sub");
    reveal_strlit("and");
    reveal_strlit("or");
    reveal_strlit("xor");
    reveal_strlit("shl");
    reveal_strlit("shr");
    reveal_strlit("reg");
    reveal_strlit("con");
    reveal_strlit("inst");
    reveal_strlit("sig");
    reveal_strlit("drv");
    reveal_strlit("prb");
    reveal_strlit("var");
    reveal_strlit("halt");
    reveal_strlit("wait");
    reveal_strlit("eq");
    reveal_strlit("slt");
    reveal_strlit("sgt");
    reveal_strlit("sle");
    reveal_strlit("sge");
    reveal_strlit("ult");
    reveal_strlit("ugt");
    reveal_strlit("ule");
    reveal_strlit("uge");
    reveal_strlit("sdiv");
    reveal_strlit("udiv");
    reveal_strlit("smod");
    reveal_strlit("umod");
    let t = mlir_opcode_text(op)->0;
    let n = opcode_name(op);
    if op == Opcode::Add || op == Opcode::Sub || op == Opcode::And || op == Opcode::Or || op == Opcode::Xor {
        assert(t =~= "comb."@ + n);
    }
    if compare_operator_of(op) is Some && op != Opcode::Neq {
        assert(t =~= "comb.icmp \""@ + n + "\""@);
    }
    if op == Opcode::Sdiv || op == Opcode::Udiv || op == Opcode::Smod || op == Opcode::Umod {
        assert(t =~= "comb."@ + n.subrange(1, n.len() as int) + seq![n[0]]);
    }
    if op == Opcode::Shl || op == Opcode::Shr || op == Opcode::Sig || op == Opcode::Drv || op == Opcode::DrvCond
        || op == Opcode::Prb || op == Opcode::Var || op == Opcode::Reg || op == Opcode::Con || op == Opcode::Inst
        || op == Opcode::Halt || op == Opcode::Wait || op == Opcode::WaitTime {
        assert(t =~= "llhd."@ + n);
    }
}

/// The CIRCT operation that an opcode maps to; only opcodes with a single
/// corresponding operation have one.
pub fn mlir_opcode(op: Opcode) -> (s: &'static str)
    requires
        mlir_opcode_text(op) is Some,
    ensures
        s@ == mlir_opcode_text(op)->0,
{
    match op {
        Opcode::ConstInt => "hw.constant",
        Opcode::ConstTime => "llhd.constant_time",
        Opcode::ArrayUniform => "hw.array_create",
        Opcode::Array => "hw.array_create",
        Opcode::Struct => "hw.struct_create",
        Opcode::Not => "comb.xor",
        Opcode::Neg => "comb.mul",
        Opcode::Add => "comb.add",
        Opcode::Sub => "comb.sub",
        Opcode::And => "comb.and",
        Opcode::Or => "comb.or",
        Opcode::Xor => "comb.xor",
        Opcode::Smul => "comb.mul",
        Opcode::Sdiv => "comb.divs",
        Opcode::Smod => "comb.mods",
        Opcode::Srem => "comb.mods",
        Opcode::Umul => "comb.mul",
        Opcode::Udiv => "comb.divu",
        Opcode::Umod => "comb.modu",
        Opcode::Urem => "comb.modu",
        Opcode::Eq => "comb.icmp \"eq\"",
        Opcode::Neq => "comb.icmp \"ne\"",
        Opcode::Slt => "comb.icmp \"slt\"",
        Opcode::Sgt => "comb.icmp \"sgt\"",
        Opcode::Sle => "comb.icmp \"sle\"",
        Opcode::Sge => "comb.icmp \"sge\"",
        Opcode::Ult => "comb.icmp \"ult\"",
        Opcode::Ugt => "comb.icmp \"ugt\"",
        Opcode::Ule => "comb.icmp \"ule\"",
        Opcode::Uge => "comb.icmp \"uge\"",
        Opcode::Shl => "llhd.shl",
        Opcode::Shr => "llhd.shr",
        Opcode::Mux => "hw.array_get",
        Opcode::Reg => "llhd.reg",
        Opcode::Con => "llhd.con",
        Opcode::Call => "call",
        Opcode::Inst => "llhd.inst",
        Opcode::Sig => "llhd.sig",
        Opcode::Drv => "llhd.drv",
        Opcode::DrvCond => "llhd.drv",
        Opcode::Prb => "llhd.prb",
        Opcode::Var => "llhd.var",
        Opcode::Ld => "llhd.load",
        Opcode::St => "llhd.store",
        Opcode::Halt => "llhd.halt",
        Opcode::Ret => "return",
        Opcode::RetValue => "return",
        Opcode::Br => "cf.br",
        Opcode::BrCond => "cf.cond_br",
        Opcode::Wait => "llhd.wait",
        Opcode::WaitTime => "llhd.wait",
        _ => {
            proof {
                assert(false);
            }
            ""
        },
    }
}

} // verus!
