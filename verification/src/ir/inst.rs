//! Representation of LLHD instructions.
//!
//! An instruction is an opcode together with a format that determines its
//! arguments, referenced blocks, and immediates.

use crate::inst::{
    binary_mnemonic_name, compare_op_name, lemma_compare_op_round_trip, parses_to, unary_mnemonic_name, BinaryMnemonic,
    CompareOp, UnaryMnemonic,
};
use crate::ir::keys::{Block, ExtUnit, Value};
use crate::konst::{IntValue, TimeValue};
use crate::ty::{pointer_ty, signal_ty, Type};
use vstd::prelude::*;

verus! {

/// An instruction opcode.
///
/// This enum represents the actual instruction, whereas `InstData` covers the
/// format and arguments of the instruction.
#[derive(Clone, Copy, PartialEq, Eq, Structural, Debug, Hash)]
pub enum Opcode {
    ConstInt,
    ConstTime,
    Alias,
    ArrayUniform,
    Array,
    Struct,
    Not,
    Neg,
    Add,
    Sub,
    And,
    Or,
    Xor,
    Smul,
    Sdiv,
    Smod,
    Srem,
    Umul,
    Udiv,
    Umod,
    Urem,
    Eq,
    Neq,
    Slt,
    Sgt,
    Sle,
    Sge,
    Ult,
    Ugt,
    Ule,
    Uge,
    Shl,
    Shr,
    Mux,
    Reg,
    InsField,
    InsSlice,
    ExtField,
    ExtSlice,
    Con,
    Del,
    Call,
    Inst,
    Sig,
    Prb,
    Drv,
    DrvCond,
    Var,
    Ld,
    St,
    Halt,
    Ret,
    RetValue,
    Phi,
    Br,
    BrCond,
    Wait,
    WaitTime,
}

/// The textual mnemonic of an opcode.
pub open spec fn opcode_name(op: Opcode) -> Seq<char> {
    match op {
            Opcode::ConstInt => "const"@,
            Opcode::ConstTime => "const"@,
            Opcode::Alias => "alias"@,
            Opcode::ArrayUniform => "array"@,
            Opcode::Array => "array"@,
            Opcode::Struct => "struct"@,
            Opcode::Not => "not"@,
            Opcode::Neg => "neg"@,
            Opcode::Add => "add"@,
            Opcode::Sub => "sub"@,
            Opcode::And => "and"@,
            Opcode::Or => "or"@,
            Opcode::Xor => "xor"@,
            Opcode::Smul => "smul"@,
            Opcode::Sdiv => "sdiv"@,
            Opcode::Smod => "smod"@,
            Opcode::Srem => "srem"@,
            Opcode::Umul => "umul"@,
            Opcode::Udiv => "udiv"@,
            Opcode::Umod => "umod"@,
            Opcode::Urem => "urem"@,
            Opcode::Eq => "eq"@,
            Opcode::Neq => "neq"@,
            Opcode::Slt => "slt"@,
            Opcode::Sgt => "sgt"@,
            Opcode::Sle => "sle"@,
            Opcode::Sge => "sge"@,
            Opcode::Ult => "ult"@,
            Opcode::Ugt => "ugt"@,
            Opcode::Ule => "ule"@,
            Opcode::Uge => "uge"@,
            Opcode::Shl => "shl"@,
            Opcode::Shr => "shr"@,
            Opcode::Mux => "mux"@,
            Opcode::Reg => "reg"@,
            Opcode::InsField => "insf"@,
            Opcode::InsSlice => "inss"@,
            Opcode::ExtField => "extf"@,
            Opcode::ExtSlice => "exts"@,
            Opcode::Con => "con"@,
            Opcode::Del => "del"@,
            Opcode::Call => "call"@,
            Opcode::Inst => "inst"@,
            Opcode::Sig => "sig"@,
            Opcode::Prb => "prb"@,
            Opcode::Drv => "drv"@,
            Opcode::DrvCond => "drv"@,
            Opcode::Var => "var"@,
            Opcode::Ld => "ld"@,
            Opcode::St => "st"@,
            Opcode::Halt => "halt"@,
            Opcode::Ret => "ret"@,
            Opcode::RetValue => "ret"@,
            Opcode::Phi => "phi"@,
            Opcode::Br => "br"@,
            Opcode::BrCond => "br"@,
            Opcode::Wait => "wait"@,
            Opcode::WaitTime => "wait"@,
    }
}

/// The opcode that stands for the family an opcode is written with: opcodes
/// of one family share a mnemonic and are told apart by their operands (the
/// integer and time constants, the uniform and listed arrays, plain and
/// conditional drives, returns with and without a value, plain and
/// conditional branches, waits with and without a time).
pub open spec fn mnemonic_family(op: Opcode) -> Opcode {
    match op {
        Opcode::ConstTime => Opcode::ConstInt,
        Opcode::Array => Opcode::ArrayUniform,
        Opcode::DrvCond => Opcode::Drv,
        Opcode::RetValue => Opcode::Ret,
        Opcode::BrCond => Opcode::Br,
        Opcode::WaitTime => Opcode::Wait,
        _ => op,
    }
}

/// The binary operator of the instruction interface that an opcode computes,
/// if it is one of them.
pub open spec fn binary_operator_of(op: Opcode) -> Option<BinaryMnemonic> {
    match op {
        Opcode::Add => Some(BinaryMnemonic::Add),
        Opcode::Sub => Some(BinaryMnemonic::Sub),
        Opcode::And => Some(BinaryMnemonic::And),
        Opcode::Or => Some(BinaryMnemonic::Or),
        Opcode::Xor => Some(BinaryMnemonic::Xor),
        Opcode::Shl => Some(BinaryMnemonic::Shl),
        Opcode::Shr => Some(BinaryMnemonic::Shr),
        _ => None,
    }
}

/// The comparison of the instruction interface that an opcode computes, if
/// it is one.
pub open spec fn compare_operator_of(op: Opcode) -> Option<CompareOp> {
    match op {
        Opcode::Eq => Some(CompareOp::Eq),
        Opcode::Neq => Some(CompareOp::Neq),
        Opcode::Slt => Some(CompareOp::Slt),
        Opcode::Sgt => Some(CompareOp::Sgt),
        Opcode::Sle => Some(CompareOp::Sle),
        Opcode::Sge => Some(CompareOp::Sge),
        Opcode::Ult => Some(CompareOp::Ult),
        Opcode::Ugt => Some(CompareOp::Ugt),
        Opcode::Ule => Some(CompareOp::Ule),
        Opcode::Uge => Some(CompareOp::Uge),
        _ => None,
    }
}

/// Two opcodes are written with the same mnemonic exactly when they belong
/// to the same family: distinct operations, such as `add` and `sub`, never
/// share one.
#[verifier::rlimit(100)]
#[verifier::spinoff_prover]
pub proof fn lemma_opcode_names_distinct(a: Opcode, b: Opcode)
    ensures
        (opcode_name(a) == opcode_name(b)) <==> (mnemonic_family(a) == mnemonic_family(b)),
{
    reveal_strlit("add");
    reveal_strlit("alias");
    reveal_strlit("and");
    reveal_strlit("array");
    reveal_strlit("br");
    reveal_strlit("call");
    reveal_strlit("con");
    reveal_strlit("const");
    reveal_strlit("del");
    reveal_strlit("drv");
    reveal_strlit("eq");
    reveal_strlit("extf");
    reveal_strlit("exts");
    reveal_strlit("halt");
    reveal_strlit("insf");
    reveal_strlit("inss");
    reveal_strlit("inst");
    reveal_strlit("ld");
    reveal_strlit("mux");
    reveal_strlit("neg");
    reveal_strlit("neq");
    reveal_strlit("not");
    reveal_strlit("or");
    reveal_strlit("phi");
    reveal_strlit("prb");
    reveal_strlit("reg");
    reveal_strlit("ret");
    reveal_strlit("sdiv");
    reveal_strlit("sge");
    reveal_strlit("sgt");
    reveal_strlit("shl");
    reveal_strlit("shr");
    reveal_strlit("sig");
    reveal_strlit("sle");
    reveal_strlit("slt");
    reveal_strlit("smod");
    reveal_strlit("smul");
    reveal_strlit("srem");
    reveal_strlit("st");
    reveal_strlit("struct");
    reveal_strlit("sub");
    reveal_strlit("udiv");
    reveal_strlit("uge");
    reveal_strlit("ugt");
    reveal_strlit("ule");
    reveal_strlit("ult");
    reveal_strlit("umod");
    reveal_strlit("umul");
    reveal_strlit("urem");
    reveal_strlit("var");
    reveal_strlit("wait");
    reveal_strlit("xor");
    if opcode_name(a) == opcode_name(b) && mnemonic_family(a) != mnemonic_family(b) {
        let x = opcode_name(a);
        let y = opcode_name(b);
        assert(x.len() == y.len());
        assert(x[0] == y[0]);
        assert(x[1] == y[1]);
        assert(x[2] == y[2]);
        assert(x[3] == y[3]);
        assert(x[x.len() - 1] == y[y.len() - 1]);
    }
}

/// An opcode that computes an operator of the instruction interface is
/// written with that operator's name: `add` for addition, `sub` for
/// subtraction, `eq` to `uge` for the comparisons, `not` for negation of
/// bits.
pub proof fn lemma_opcode_operator_names(op: Opcode)
    ensures
        binary_operator_of(op) is Some ==> opcode_name(op) == binary_mnemonic_name(binary_operator_of(op)->0),
        compare_operator_of(op) is Some ==> opcode_name(op) == compare_op_name(compare_operator_of(op)->0),
        op == Opcode::Not ==> opcode_name(op) == unary_mnemonic_name(UnaryMnemonic::Not),
{
}

/// Reading the mnemonic of a comparison opcode as a comparison operator
/// gives back the comparison that the opcode computes.
pub proof fn lemma_compare_opcode_round_trip(op: Opcode, r: Option<CompareOp>)
    requires
        compare_operator_of(op) is Some,
        parses_to(opcode_name(op), r),
    ensures
        r == compare_operator_of(op),
{
    lemma_compare_op_round_trip(compare_operator_of(op)->0, r);
}

/// A set of flags identifying the kinds of units.
#[derive(Clone, Copy, PartialEq, Eq, Structural, Debug)]
pub struct UnitFlags {
    pub bits: u8,
}

impl UnitFlags {
    /// The flag for functions.
    pub fn function() -> (f: UnitFlags)
        ensures
            f.bits == 1u8,
    {
        UnitFlags { bits: 1u8 }
    }

    /// The flag for processes.
    pub fn process() -> (f: UnitFlags)
        ensures
            f.bits == 2u8,
    {
        UnitFlags { bits: 2u8 }
    }

    /// The flag for entities.
    pub fn entity() -> (f: UnitFlags)
        ensures
            f.bits == 4u8,
    {
        UnitFlags { bits: 4u8 }
    }

    /// All three flags.
    pub fn all() -> (f: UnitFlags)
        ensures
            f.bits == 7u8,
    {
        UnitFlags { bits: 7u8 }
    }

    /// The empty set of flags.
    pub fn empty() -> (f: UnitFlags)
        ensures
            f.bits == 0,
    {
        UnitFlags { bits: 0 }
    }

    /// The union of two sets of flags.
    pub fn union(self, other: UnitFlags) -> (f: UnitFlags)
        ensures
            f.bits == self.bits | other.bits,
    {
        UnitFlags { bits: self.bits | other.bits }
    }

    /// Check whether all flags of `other` are set in `self`.
    pub fn contains(self, other: UnitFlags) -> (b: bool)
        ensures
            b == (self.bits & other.bits == other.bits),
    {
        self.bits & other.bits == other.bits
    }
}

/// The unit flags an opcode may appear in.
pub open spec fn valid_in_bits(op: Opcode) -> u8 {
    match op {
        Opcode::Halt => 6u8,
        Opcode::Wait => 2u8,
        Opcode::WaitTime => 2u8,
        Opcode::Ret => 1u8,
        Opcode::RetValue => 1u8,
        Opcode::Phi => 3u8,
        Opcode::Br => 3u8,
        Opcode::BrCond => 3u8,
        Opcode::Con => 4u8,
        Opcode::Del => 4u8,
        Opcode::Reg => 4u8,
        Opcode::Inst => 4u8,
        _ => 7u8,
    }
}

/// Whether an opcode is a terminator.
pub open spec fn is_terminator_op(op: Opcode) -> bool {
    match op {
        Opcode::Halt | Opcode::Ret | Opcode::RetValue | Opcode::Br | Opcode::BrCond | Opcode::Wait
        | Opcode::WaitTime => true,
        _ => false,
    }
}

/// Whether an opcode suspends execution until some later time.
pub open spec fn is_temporal_op(op: Opcode) -> bool {
    match op {
        Opcode::Halt | Opcode::Wait | Opcode::WaitTime => true,
        _ => false,
    }
}

proof fn lemma_flag_bits()
    by (bit_vector)
    ensures
        6u8 & 1u8 != 1u8, 6u8 & 2u8 == 2u8, 6u8 & 4u8 == 4u8,
        2u8 & 1u8 != 1u8, 2u8 & 2u8 == 2u8, 2u8 & 4u8 != 4u8,
        1u8 & 1u8 == 1u8, 1u8 & 2u8 != 2u8, 1u8 & 4u8 != 4u8,
        3u8 & 1u8 == 1u8, 3u8 & 2u8 == 2u8, 3u8 & 4u8 != 4u8,
        4u8 & 1u8 != 1u8, 4u8 & 2u8 != 2u8, 4u8 & 4u8 == 4u8,
        7u8 & 1u8 == 1u8, 7u8 & 2u8 == 2u8, 7u8 & 4u8 == 4u8,
        2u8 | 4u8 == 6u8, 1u8 | 2u8 == 3u8,
{
}

impl Opcode {
    /// The textual mnemonic of the opcode, as it appears in assembly.
    pub fn as_str(self) -> (s: &'static str)
        ensures
            s@ == opcode_name(self),
    {
        match self {
            Opcode::ConstInt => "const",
            Opcode::ConstTime => "const",
            Opcode::Alias => "alias",
            Opcode::ArrayUniform => "array",
            Opcode::Array => "array",
            Opcode::Struct => "struct",
            Opcode::Not => "not",
            Opcode::Neg => "neg",
            Opcode::Add => "add",
            Opcode::Sub => "sub",
            Opcode::And => "and",
            Opcode::Or => "or",
            Opcode::Xor => "xor",
            Opcode::Smul => "smul",
            Opcode::Sdiv => "sdiv",
            Opcode::Smod => "smod",
            Opcode::Srem => "srem",
            Opcode::Umul => "umul",
            Opcode::Udiv => "udiv",
            Opcode::Umod => "umod",
            Opcode::Urem => "urem",
            Opcode::Eq => "eq",
            Opcode::Neq => "neq",
            Opcode::Slt => "slt",
            Opcode::Sgt => "sgt",
            Opcode::Sle => "sle",
            Opcode::Sge => "sge",
            Opcode::Ult => "ult",
            Opcode::Ugt => "ugt",
            Opcode::Ule => "ule",
            Opcode::Uge => "uge",
            Opcode::Shl => "shl",
            Opcode::Shr => "shr",
            Opcode::Mux => "mux",
            Opcode::Reg => "reg",
            Opcode::InsField => "insf",
            Opcode::InsSlice => "inss",
            Opcode::ExtField => "extf",
            Opcode::ExtSlice => "exts",
            Opcode::Con => "con",
            Opcode::Del => "del",
            Opcode::Call => "call",
            Opcode::Inst => "inst",
            Opcode::Sig => "sig",
            Opcode::Prb => "prb",
            Opcode::Drv => "drv",
            Opcode::DrvCond => "drv",
            Opcode::Var => "var",
            Opcode::Ld => "ld",
            Opcode::St => "st",
            Opcode::Halt => "halt",
            Opcode::Ret => "ret",
            Opcode::RetValue => "ret",
            Opcode::Phi => "phi",
            Opcode::Br => "br",
            Opcode::BrCond => "br",
            Opcode::Wait => "wait",
            Opcode::WaitTime => "wait",
        }
    }

    /// Return a set of flags where this instruction is valid.
    pub fn valid_in(self) -> (f: UnitFlags)
        ensures
            f.bits == valid_in_bits(self),
    {
        proof { lemma_flag_bits(); }
        match self {
            Opcode::Halt => UnitFlags::process().union(UnitFlags::entity()),
            Opcode::Wait => UnitFlags::process(),
            Opcode::WaitTime => UnitFlags::process(),
            Opcode::Ret => UnitFlags::function(),
            Opcode::RetValue => UnitFlags::function(),
            Opcode::Phi => UnitFlags::function().union(UnitFlags::process()),
            Opcode::Br => UnitFlags::function().union(UnitFlags::process()),
            Opcode::BrCond => UnitFlags::function().union(UnitFlags::process()),
            Opcode::Con => UnitFlags::entity(),
            Opcode::Del => UnitFlags::entity(),
            Opcode::Reg => UnitFlags::entity(),
            Opcode::Inst => UnitFlags::entity(),
            _ => UnitFlags::all(),
        }
    }

    /// Check if this instruction can appear in a `Function`.
    pub fn valid_in_function(self) -> (b: bool)
        ensures
            b == (valid_in_bits(self) & 1u8 == 1u8),
    {
        self.valid_in().contains(UnitFlags::function())
    }

    /// Check if this instruction can appear in a `Process`.
    pub fn valid_in_process(self) -> (b: bool)
        ensures
            b == (valid_in_bits(self) & 2u8 == 2u8),
    {
        self.valid_in().contains(UnitFlags::process())
    }

    /// Check if this instruction can appear in an `Entity`.
    pub fn valid_in_entity(self) -> (b: bool)
        ensures
            b == (valid_in_bits(self) & 4u8 == 4u8),
    {
        self.valid_in().contains(UnitFlags::entity())
    }

    /// Check if this instruction is a constant.
    pub fn is_const(self) -> (b: bool)
        ensures
            b == (self == Opcode::ConstInt || self == Opcode::ConstTime),
    {
        match self {
            Opcode::ConstInt => true,
            Opcode::ConstTime => true,
            _ => false,
        }
    }

    /// Check if this instruction is a phi node.
    pub fn is_phi(self) -> (b: bool)
        ensures
            b == (self == Opcode::Phi),
    {
        match self {
            Opcode::Phi => true,
            _ => false,
        }
    }

    /// Check if this instruction is a terminator.
    pub fn is_terminator(self) -> (b: bool)
        ensures
            b == is_terminator_op(self),
    {
        match self {
            Opcode::Halt | Opcode::Ret | Opcode::RetValue | Opcode::Br | Opcode::BrCond
            | Opcode::Wait | Opcode::WaitTime => true,
            _ => false,
        }
    }

    /// Check if this is a return instruction.
    pub fn is_return(self) -> (b: bool)
        ensures
            b == (self == Opcode::Ret || self == Opcode::RetValue),
    {
        match self {
            Opcode::Ret | Opcode::RetValue => true,
            _ => false,
        }
    }

    /// Check if this is a temporal instruction.
    pub fn is_temporal(self) -> (b: bool)
        ensures
            b == is_temporal_op(self),
    {
        match self {
            Opcode::Halt | Opcode::Wait | Opcode::WaitTime => true,
            _ => false,
        }
    }
}

/// The trigger modes for register data acquisition.
#[derive(Clone, Copy, PartialEq, Eq, Structural, Debug, Hash)]
pub enum RegMode {
    /// The register is transparent if the trigger is low.
    Low,
    /// The register is transparent if the trigger is high.
    High,
    /// The register stores data on the rising edge of the trigger.
    Rise,
    /// The register stores data on the falling edge of the trigger.
    Fall,
    /// The register stores data on any edge of the trigger.
    Both,
}

/// The textual name of a register mode.
pub open spec fn reg_mode_name(m: RegMode) -> Seq<char> {
    match m {
        RegMode::Low => "low"@,
        RegMode::High => "high"@,
        RegMode::Rise => "rise"@,
        RegMode::Fall => "fall"@,
        RegMode::Both => "both"@,
    }
}

impl RegMode {
    /// The textual name of the mode, as it appears in assembly.
    pub fn as_str(self) -> (s: &'static str)
        ensures
            s@ == reg_mode_name(self),
    {
        match self {
            RegMode::Low => "low",
            RegMode::High => "high",
            RegMode::Rise => "rise",
            RegMode::Fall => "fall",
            RegMode::Both => "both",
        }
    }
}

/// The trigger for register data acquisition.
#[derive(Clone, Copy, PartialEq, Eq, Structural, Debug)]
pub struct RegTrigger {
    /// The value to be stored.
    pub data: Value,
    /// The trigger mode.
    pub mode: RegMode,
    /// The trigger signal.
    pub trigger: Value,
    /// The gating condition.
    pub gate: Option<Value>,
}

/// Apply `f` to the type carried by a pointer or signal type, keeping the
/// pointer or signal around it; apply it to `ty` itself otherwise.
pub open spec fn unpacked_sigptr(ty: Type, inner: Type) -> Type {
    match ty {
        Type::PointerType(_) => Type::PointerType(Box::new(inner)),
        Type::SignalType(_) => Type::SignalType(Box::new(inner)),
        _ => inner,
    }
}

/// The type carried by a pointer or signal type, or the type itself.
pub open spec fn sigptr_inner(ty: Type) -> Type {
    match ty {
        Type::PointerType(t) => *t,
        Type::SignalType(t) => *t,
        _ => ty,
    }
}

/// Strip a pointer or signal wrapper from `ty`.
pub fn unpack_sigptr(ty: &Type) -> (t: Type)
    ensures
        t == sigptr_inner(*ty),
{
    if ty.is_pointer() {
        ty.unwrap_pointer().duplicate()
    } else if ty.is_signal() {
        ty.unwrap_signal().duplicate()
    } else {
        ty.duplicate()
    }
}

/// Wrap `inner` in the same pointer or signal wrapper that `ty` has.
pub fn with_unpacked_sigptr(ty: &Type, inner: Type) -> (t: Type)
    ensures
        t == unpacked_sigptr(*ty, inner),
{
    if ty.is_pointer() {
        pointer_ty(inner)
    } else if ty.is_signal() {
        signal_ty(inner)
    } else {
        inner
    }
}

} // verus!

verus! {

/// An instruction format.
#[allow(inconsistent_fields)]
pub enum InstData {
    /// `a = const iN imm`
    ConstInt { opcode: Opcode, imm: IntValue },
    /// `a = const time imm`
    ConstTime { opcode: Opcode, imm: TimeValue },
    /// `opcode imm, type x`
    Array { opcode: Opcode, imms: [usize; 1], args: [Value; 1] },
    /// `opcode args`
    Aggregate { opcode: Opcode, args: Vec<Value> },
    /// `opcode`
    Nullary { opcode: Opcode },
    /// `opcode type x`
    Unary { opcode: Opcode, args: [Value; 1] },
    /// `opcode type x, y`
    Binary { opcode: Opcode, args: [Value; 2] },
    /// `opcode type x, y, z`
    Ternary { opcode: Opcode, args: [Value; 3] },
    /// `opcode type x, y, z, w`
    Quaternary { opcode: Opcode, args: [Value; 4] },
    /// `opcode bb`
    Jump { opcode: Opcode, bbs: [Block; 1] },
    /// `opcode type [x, bb],*`
    Phi { opcode: Opcode, args: Vec<Value>, bbs: Vec<Block> },
    /// `opcode x, bb0, bb1`
    Branch { opcode: Opcode, args: [Value; 1], bbs: [Block; 2] },
    /// `opcode bb, args`
    Wait { opcode: Opcode, bbs: [Block; 1], args: Vec<Value> },
    /// `a = opcode type unit (inputs) -> (outputs)`
    Call { opcode: Opcode, unit: ExtUnit, ins: u16, args: Vec<Value> },
    /// `a = opcode type x, y, imm0, imm1`
    InsExt { opcode: Opcode, args: [Value; 2], imms: [usize; 2] },
    /// `a = reg type x (, data mode trigger)*`
    Reg { opcode: Opcode, args: Vec<Value>, modes: Vec<RegMode> },
}

impl InstData {
    /// The opcode of the instruction.
    pub open spec fn spec_opcode(&self) -> Opcode {
        match *self {
            InstData::ConstInt { opcode, .. } => opcode,
            InstData::ConstTime { opcode, .. } => opcode,
            InstData::Array { opcode, .. } => opcode,
            InstData::Aggregate { opcode, .. } => opcode,
            InstData::Nullary { opcode, .. } => opcode,
            InstData::Unary { opcode, .. } => opcode,
            InstData::Binary { opcode, .. } => opcode,
            InstData::Ternary { opcode, .. } => opcode,
            InstData::Quaternary { opcode, .. } => opcode,
            InstData::Phi { opcode, .. } => opcode,
            InstData::Jump { opcode, .. } => opcode,
            InstData::Branch { opcode, .. } => opcode,
            InstData::Wait { opcode, .. } => opcode,
            InstData::Call { opcode, .. } => opcode,
            InstData::InsExt { opcode, .. } => opcode,
            InstData::Reg { opcode, .. } => opcode,
        }
    }

    /// The value arguments of the instruction.
    pub open spec fn spec_args(&self) -> Seq<Value> {
        match *self {
            InstData::ConstInt { .. } => Seq::empty(),
            InstData::ConstTime { .. } => Seq::empty(),
            InstData::Array { args, .. } => seq![args[0]],
            InstData::Aggregate { args, .. } => args@,
            InstData::Nullary { .. } => Seq::empty(),
            InstData::Unary { args, .. } => seq![args[0]],
            InstData::Binary { args, .. } => seq![args[0], args[1]],
            InstData::Ternary { args, .. } => seq![args[0], args[1], args[2]],
            InstData::Quaternary { args, .. } => seq![args[0], args[1], args[2], args[3]],
            InstData::Phi { args, .. } => args@,
            InstData::Jump { .. } => Seq::empty(),
            InstData::Branch { args, .. } => seq![args[0]],
            InstData::Wait { args, .. } => args@,
            InstData::Call { args, .. } => args@,
            InstData::InsExt { opcode, args, .. } => if opcode == Opcode::ExtField || opcode == Opcode::ExtSlice {
                seq![args[0]]
            } else {
                seq![args[0], args[1]]
            },
            InstData::Reg { args, .. } => args@,
        }
    }

    /// The blocks the instruction refers to.
    pub open spec fn spec_blocks(&self) -> Seq<Block> {
        match *self {
            InstData::Phi { bbs, .. } => bbs@,
            InstData::Jump { bbs, .. } => seq![bbs[0]],
            InstData::Branch { bbs, .. } => seq![bbs[0], bbs[1]],
            InstData::Wait { bbs, .. } => seq![bbs[0]],
            _ => Seq::empty(),
        }
    }

    /// The immediates of the instruction.
    pub open spec fn spec_imms(&self) -> Seq<usize> {
        match *self {
            InstData::Array { imms, .. } => seq![imms[0]],
            InstData::InsExt { opcode, imms, .. } => if opcode == Opcode::InsField || opcode == Opcode::ExtField {
                seq![imms[0]]
            } else {
                seq![imms[0], imms[1]]
            },
            _ => Seq::empty(),
        }
    }

    /// Get the opcode of the instruction.
    pub fn opcode(&self) -> (op: Opcode)
        ensures
            op == self.spec_opcode(),
    {
        match *self {
            InstData::ConstInt { opcode, .. } => opcode,
            InstData::ConstTime { opcode, .. } => opcode,
            InstData::Array { opcode, .. } => opcode,
            InstData::Aggregate { opcode, .. } => opcode,
            InstData::Nullary { opcode, .. } => opcode,
            InstData::Unary { opcode, .. } => opcode,
            InstData::Binary { opcode, .. } => opcode,
            InstData::Ternary { opcode, .. } => opcode,
            InstData::Quaternary { opcode, .. } => opcode,
            InstData::Phi { opcode, .. } => opcode,
            InstData::Jump { opcode, .. } => opcode,
            InstData::Branch { opcode, .. } => opcode,
            InstData::Wait { opcode, .. } => opcode,
            InstData::Call { opcode, .. } => opcode,
            InstData::InsExt { opcode, .. } => opcode,
            InstData::Reg { opcode, .. } => opcode,
        }
    }

    /// Get the arguments of an instruction.
    pub fn args(&self) -> (v: Vec<Value>)
        ensures
            v@ == self.spec_args(),
    {
        let v = match self {
            InstData::ConstInt { .. } => Vec::new(),
            InstData::ConstTime { .. } => Vec::new(),
            InstData::Array { args, .. } => vec![args[0]],
            InstData::Aggregate { args, .. } => args.clone(),
            InstData::Nullary { .. } => Vec::new(),
            InstData::Unary { args, .. } => vec![args[0]],
            InstData::Binary { args, .. } => vec![args[0], args[1]],
            InstData::Ternary { args, .. } => vec![args[0], args[1], args[2]],
            InstData::Quaternary { args, .. } => vec![args[0], args[1], args[2], args[3]],
            InstData::Phi { args, .. } => args.clone(),
            InstData::Jump { .. } => Vec::new(),
            InstData::Branch { args, .. } => vec![args[0]],
            InstData::Wait { args, .. } => args.clone(),
            InstData::Call { args, .. } => args.clone(),
            InstData::InsExt { opcode, args, .. } => if *opcode == Opcode::ExtField || *opcode == Opcode::ExtSlice {
                vec![args[0]]
            } else {
                vec![args[0], args[1]]
            },
            InstData::Reg { args, .. } => args.clone(),
        };
        assert(v@ =~= self.spec_args());
        v
    }

    /// Get the BBs of an instruction.
    pub fn blocks(&self) -> (v: Vec<Block>)
        ensures
            v@ == self.spec_blocks(),
    {
        let v = match self {
            InstData::Phi { bbs, .. } => bbs.clone(),
            InstData::Jump { bbs, .. } => vec![bbs[0]],
            InstData::Branch { bbs, .. } => vec![bbs[0], bbs[1]],
            InstData::Wait { bbs, .. } => vec![bbs[0]],
            _ => Vec::new(),
        };
        assert(v@ =~= self.spec_blocks());
        v
    }

    /// Get the immediates of an instruction.
    pub fn imms(&self) -> (v: Vec<usize>)
        ensures
            v@ == self.spec_imms(),
    {
        let v = match self {
            InstData::Array { imms, .. } => vec![imms[0]],
            InstData::InsExt { opcode, imms, .. } => if *opcode == Opcode::InsField || *opcode == Opcode::ExtField {
                vec![imms[0]]
            } else {
                vec![imms[0], imms[1]]
            },
            _ => Vec::new(),
        };
        assert(v@ =~= self.spec_imms());
        v
    }

    /// Get the input arguments of a call instruction.
    pub fn input_args(&self) -> (v: Vec<Value>)
        requires
            self is Call ==> self->Call_ins <= self->Call_args@.len(),
        ensures
            v@ == (match *self {
                InstData::Call { args, ins, .. } => args@.subrange(0, ins as int),
                _ => Seq::empty(),
            }),
    {
        match self {
            InstData::Call { args, ins, .. } => {
                let mut v: Vec<Value> = Vec::new();
                let mut k: usize = 0;
                while k < *ins as usize
                    invariant
                        k <= *ins,
                        *ins <= args@.len(),
                        v@ == args@.subrange(0, k as int),
                    decreases *ins - k,
                {
                    v.push(args[k]);
                    k = k + 1;
                    assert(v@ =~= args@.subrange(0, k as int));
                }
                v
            },
            _ => Vec::new(),
        }
    }

    /// Get the output arguments of a call instruction.
    pub fn output_args(&self) -> (v: Vec<Value>)
        requires
            self is Call ==> self->Call_ins <= self->Call_args@.len(),
        ensures
            v@ == (match *self {
                InstData::Call { args, ins, .. } => args@.subrange(ins as int, args@.len() as int),
                _ => Seq::empty(),
            }),
    {
        match self {
            InstData::Call { args, ins, .. } => {
                let mut v: Vec<Value> = Vec::new();
                let mut k: usize = *ins as usize;
                while k < args.len()
                    invariant
                        *ins <= k <= args@.len(),
                        v@ == args@.subrange(*ins as int, k as int),
                    decreases args@.len() - k,
                {
                    v.push(args[k]);
                    k = k + 1;
                    assert(v@ =~= args@.subrange(*ins as int, k as int));
                }
                v
            },
            _ => Vec::new(),
        }
    }

    /// Return the external unit being called or instantiated by this
    /// instruction.
    pub fn get_ext_unit(&self) -> (r: Option<ExtUnit>)
        ensures
            r == (match *self {
                InstData::Call { unit, .. } => Some(unit),
                _ => None,
            }),
    {
        match self {
            InstData::Call { unit, .. } => Some(*unit),
            _ => None,
        }
    }
}


/// A register instruction carries the stored value first, then one data
/// value per trigger, then one trigger value per trigger, then one gate per
/// trigger (the invalid value where the trigger has no gate).
pub open spec fn reg_shape_ok(d: InstData) -> bool {
    match d {
        InstData::Reg { args, modes, .. } => args@.len() == 3 * modes@.len() + 1,
        _ => true,
    }
}

/// The trigger modes of a register instruction; empty for other formats.
pub open spec fn reg_modes(d: InstData) -> Seq<RegMode> {
    match d {
        InstData::Reg { modes, .. } => modes@,
        _ => Seq::empty(),
    }
}

/// The optional gate encoded in a gating argument.
pub open spec fn gate_of(v: Value) -> Option<Value> {
    if v.0 == u32::MAX {
        None
    } else {
        Some(v)
    }
}

impl InstData {
    /// Copy `args[lo..hi]` into a new vector.
    fn arg_range(args: &Vec<Value>, lo: usize, hi: usize) -> (v: Vec<Value>)
        requires
            lo <= hi <= args@.len(),
        ensures
            v@ == args@.subrange(lo as int, hi as int),
    {
        let mut v: Vec<Value> = Vec::new();
        let mut i = lo;
        while i < hi
            invariant
                lo <= i <= hi <= args@.len(),
                v@ == args@.subrange(lo as int, i as int),
            decreases hi - i,
        {
            v.push(args[i]);
            i = i + 1;
        }
        v
    }

    /// The data arguments of a register instruction, one per trigger.
    pub fn data_args(&self) -> (v: Vec<Value>)
        requires
            reg_shape_ok(*self),
        ensures
            v@ == (match *self {
                InstData::Reg { args, modes, .. } => args@.subrange(1, 1 + modes@.len() as int),
                _ => Seq::<Value>::empty(),
            }),
    {
        match self {
            InstData::Reg { args, modes, .. } => {
                let total = args.len();
                assert(total == 3 * modes@.len() + 1);
                Self::arg_range(args, 1, 1 + modes.len())
            },
            _ => Vec::new(),
        }
    }

    /// The trigger arguments of a register instruction, one per trigger.
    pub fn trigger_args(&self) -> (v: Vec<Value>)
        requires
            reg_shape_ok(*self),
        ensures
            v@ == (match *self {
                InstData::Reg { args, modes, .. } => args@.subrange(
                    1 + modes@.len() as int,
                    1 + 2 * modes@.len() as int,
                ),
                _ => Seq::<Value>::empty(),
            }),
    {
        match self {
            InstData::Reg { args, modes, .. } => {
                let n = modes.len();
                let total = args.len();
                assert(total == 3 * n + 1);
                Self::arg_range(args, 1 + n, 1 + 2 * n)
            },
            _ => Vec::new(),
        }
    }

    /// The gating arguments of a register instruction, one per trigger;
    /// `None` where the trigger has no gate.
    pub fn gating_args(&self) -> (v: Vec<Option<Value>>)
        requires
            reg_shape_ok(*self),
        ensures
            (match *self {
                InstData::Reg { args, modes, .. } => {
                    &&& v@.len() == modes@.len()
                    &&& forall|i: int|
                        0 <= i < modes@.len() ==> #[trigger] v@[i] == gate_of(
                            args@[1 + 2 * modes@.len() + i],
                        )
                },
                _ => v@.len() == 0,
            }),
    {
        let mut v: Vec<Option<Value>> = Vec::new();
        match self {
            InstData::Reg { args, modes, .. } => {
                let n = modes.len();
                let total = args.len();
                let mut i: usize = 0;
                while i < n
                    invariant
                        n == modes@.len(),
                        total == args@.len(),
                        args@.len() == 3 * n + 1,
                        i <= n,
                        v@.len() == i,
                        forall|j: int| 0 <= j < i ==> #[trigger] v@[j] == gate_of(args@[1 + 2 * n + j]),
                    decreases n - i,
                {
                    let a = args[1 + 2 * n + i];
                    if a.is_invalid() {
                        v.push(None);
                    } else {
                        v.push(Some(a));
                    }
                    i = i + 1;
                }
            },
            _ => {},
        }
        v
    }

    /// The trigger modes of a register instruction.
    pub fn mode_args(&self) -> (v: Vec<RegMode>)
        ensures
            v@ == reg_modes(*self),
    {
        match self {
            InstData::Reg { modes, .. } => modes.clone(),
            _ => Vec::new(),
        }
    }

    /// The triggers of a register instruction, with their data, mode,
    /// trigger and gate.
    pub fn triggers(&self) -> (v: Vec<RegTrigger>)
        requires
            reg_shape_ok(*self),
        ensures
            (match *self {
                InstData::Reg { args, modes, .. } => {
                    &&& v@.len() == modes@.len()
                    &&& forall|i: int|
                        0 <= i < modes@.len() ==> #[trigger] v@[i] == (RegTrigger {
                            data: args@[1 + i],
                            mode: modes@[i],
                            trigger: args@[1 + modes@.len() + i],
                            gate: gate_of(args@[1 + 2 * modes@.len() + i]),
                        })
                },
                _ => v@.len() == 0,
            }),
    {
        let data = self.data_args();
        let modes = self.mode_args();
        let trig = self.trigger_args();
        let gates = self.gating_args();
        let mut v: Vec<RegTrigger> = Vec::new();
        let n = modes.len();
        let mut i: usize = 0;
        while i < n
            invariant
                n == modes@.len(),
                data@.len() == n,
                trig@.len() == n,
                gates@.len() == n,
                i <= n,
                v@.len() == i,
                forall|j: int|
                    0 <= j < i ==> #[trigger] v@[j] == (RegTrigger {
                        data: data@[j],
                        mode: modes@[j],
                        trigger: trig@[j],
                        gate: gates@[j],
                    }),
            decreases n - i,
        {
            v.push(RegTrigger { data: data[i], mode: modes[i], trigger: trig[i], gate: gates[i] });
            i = i + 1;
        }
        v
    }
}


/// `s` with every occurrence of `from` replaced by `to`.
pub open spec fn replace_in<T>(s: Seq<T>, from: T, to: T) -> Seq<T> {
    s.map_values(|a: T| if a == from { to } else { a })
}

/// The number of occurrences of `x` in `s`.
pub open spec fn count_in<T>(s: Seq<T>, x: T) -> nat
    decreases s.len(),
{
    if s.len() == 0 {
        0
    } else {
        count_in(s.drop_last(), x) + if s.last() == x { 1nat } else { 0nat }
    }
}

/// `b` has the format, opcode, blocks and immediates of `a`; only the value
/// arguments may differ.
pub open spec fn same_but_args(a: InstData, b: InstData) -> bool {
    match a {
        InstData::ConstInt { opcode, imm } => b == InstData::ConstInt { opcode, imm },
        InstData::ConstTime { opcode, imm } => b == InstData::ConstTime { opcode, imm },
        InstData::Array { opcode, imms, .. } => b matches InstData::Array { opcode: o, imms: m, .. }
            && o == opcode && m == imms,
        InstData::Aggregate { opcode, .. } => b matches InstData::Aggregate { opcode: o, .. } && o == opcode,
        InstData::Nullary { opcode } => b == InstData::Nullary { opcode },
        InstData::Unary { opcode, .. } => b matches InstData::Unary { opcode: o, .. } && o == opcode,
        InstData::Binary { opcode, .. } => b matches InstData::Binary { opcode: o, .. } && o == opcode,
        InstData::Ternary { opcode, .. } => b matches InstData::Ternary { opcode: o, .. } && o == opcode,
        InstData::Quaternary { opcode, .. } => b matches InstData::Quaternary { opcode: o, .. } && o
            == opcode,
        InstData::Jump { opcode, bbs } => b == InstData::Jump { opcode, bbs },
        InstData::Phi { opcode, bbs, .. } => b matches InstData::Phi { opcode: o, bbs: bb, .. } && o
            == opcode && bb@ == bbs@,
        InstData::Branch { opcode, bbs, .. } => b matches InstData::Branch { opcode: o, bbs: bb, .. }
            && o == opcode && bb == bbs,
        InstData::Wait { opcode, bbs, .. } => b matches InstData::Wait { opcode: o, bbs: bb, .. } && o
            == opcode && bb == bbs,
        InstData::Call { opcode, unit, ins, .. } => b matches InstData::Call {
            opcode: o,
            unit: u,
            ins: n,
            ..
        } && o == opcode && u == unit && n == ins,
        InstData::InsExt { opcode, args, imms } => b matches InstData::InsExt {
            opcode: o,
            args: a2,
            imms: m,
        } && o == opcode && m == imms && ((opcode == Opcode::ExtField || opcode == Opcode::ExtSlice)
            ==> a2[1] == args[1]),
        InstData::Reg { opcode, modes, .. } => b matches InstData::Reg { opcode: o, modes: md, .. } && o
            == opcode && md@ == modes@,
    }
}

/// `b` has the format, opcode, arguments and immediates of `a`; only the
/// blocks may differ.
pub open spec fn same_but_blocks(a: InstData, b: InstData) -> bool {
    match a {
        InstData::Jump { opcode, .. } => b matches InstData::Jump { opcode: o, .. } && o == opcode,
        InstData::Phi { opcode, args, .. } => b matches InstData::Phi { opcode: o, args: a2, .. } && o
            == opcode && a2@ == args@,
        InstData::Branch { opcode, args, .. } => b matches InstData::Branch { opcode: o, args: a2, .. }
            && o == opcode && a2 == args,
        InstData::Wait { opcode, args, .. } => b matches InstData::Wait { opcode: o, args: a2, .. } && o
            == opcode && a2@ == args@,
        _ => b == a,
    }
}

/// Swap the last element of `s` into position `i` and drop the last.
pub open spec fn swap_removed<T>(s: Seq<T>, i: int) -> Seq<T> {
    s.update(i, s.last()).drop_last()
}

/// Removing the entries for `block` from a phi's blocks and values, scanning
/// positions `i` up to `n` of the original length: each entry found is
/// replaced by the last entry, and the scan moves on to the next position.
pub open spec fn phi_drop(bbs: Seq<Block>, args: Seq<Value>, block: Block, i: int, n: int) -> (Seq<Block>, Seq<Value>, nat)
    decreases n - i,
{
    if i < 0 || i >= n || i >= bbs.len() {
        (bbs, args, 0)
    } else if bbs[i] == block {
        let r = phi_drop(swap_removed(bbs, i), swap_removed(args, i), block, i + 1, n);
        (r.0, r.1, r.2 + 1)
    } else {
        phi_drop(bbs, args, block, i + 1, n)
    }
}

/// A phi instruction has one value per block.
pub open spec fn phi_shape_ok(d: InstData) -> bool {
    d matches InstData::Phi { args, bbs, .. } ==> args@.len() == bbs@.len()
}

/// The result of removing `block` from an instruction: a phi drops its
/// entries for the block; any other instruction refers to the invalid block
/// in its place.
pub open spec fn block_removed(a: InstData, b: InstData, block: Block, count: nat) -> bool {
    match a {
        InstData::Phi { opcode, args, bbs } => {
            let r = phi_drop(bbs@, args@, block, 0, bbs@.len() as int);
            &&& b matches InstData::Phi { opcode: o, args: a2, bbs: b2 } && o == opcode && b2@ == r.0
                && a2@ == r.1
            &&& count == r.2
        },
        _ => {
            &&& same_but_blocks(a, b)
            &&& b.spec_blocks() == replace_in(a.spec_blocks(), block, Block(u32::MAX))
            &&& count == count_in(a.spec_blocks(), block)
        },
    }
}

/// Replace `from` by `to` in a vector of values, counting the replacements.
fn replace_values(v: &Vec<Value>, from: Value, to: Value) -> (r: (Vec<Value>, usize))
    ensures
        r.0@ == replace_in(v@, from, to),
        r.1 == count_in(v@, from),
{
    let mut out: Vec<Value> = Vec::new();
    let mut n: usize = 0;
    let mut i: usize = 0;
    while i < v.len()
        invariant
            i <= v@.len(),
            out@ == replace_in(v@.subrange(0, i as int), from, to),
            n == count_in(v@.subrange(0, i as int), from),
            n <= i,
        decreases v@.len() - i,
    {
        let a = v[i];
        proof {
            assert(v@.subrange(0, i as int + 1).drop_last() == v@.subrange(0, i as int));
        }
        if a == from {
            out.push(to);
            n = n + 1;
        } else {
            out.push(a);
        }
        proof {
            assert(out@ =~= replace_in(v@.subrange(0, i as int + 1), from, to));
        }
        i = i + 1;
    }
    proof {
        assert(v@.subrange(0, v@.len() as int) == v@);
    }
    (out, n)
}

/// Replace `from` by `to` in a vector of blocks, counting the replacements.
fn replace_blocks(v: &Vec<Block>, from: Block, to: Block) -> (r: (Vec<Block>, usize))
    ensures
        r.0@ == replace_in(v@, from, to),
        r.1 == count_in(v@, from),
{
    let mut out: Vec<Block> = Vec::new();
    let mut n: usize = 0;
    let mut i: usize = 0;
    while i < v.len()
        invariant
            i <= v@.len(),
            out@ == replace_in(v@.subrange(0, i as int), from, to),
            n == count_in(v@.subrange(0, i as int), from),
            n <= i,
        decreases v@.len() - i,
    {
        let a = v[i];
        proof {
            assert(v@.subrange(0, i as int + 1).drop_last() == v@.subrange(0, i as int));
        }
        if a == from {
            out.push(to);
            n = n + 1;
        } else {
            out.push(a);
        }
        proof {
            assert(out@ =~= replace_in(v@.subrange(0, i as int + 1), from, to));
        }
        i = i + 1;
    }
    proof {
        assert(v@.subrange(0, v@.len() as int) == v@);
    }
    (out, n)
}


impl InstData {
    /// Replace every use of the value `from` by `to`, and return how many
    /// uses were replaced.
    pub(crate) fn replace_value(&mut self, from: Value, to: Value) -> (count: usize)
        ensures
            same_but_args(*old(self), *final(self)),
            final(self).spec_args() == replace_in(old(self).spec_args(), from, to),
            count == count_in(old(self).spec_args(), from),
    {
        match &*self {
            InstData::ConstInt { .. } | InstData::ConstTime { .. } | InstData::Nullary { .. }
            | InstData::Jump { .. } => {
                proof {
                    assert(replace_in(self.spec_args(), from, to) =~= self.spec_args());
                }
                return 0;
            },
            _ => {},
        }
        let cur = self.args();
        let (new, count) = replace_values(&cur, from, to);
        proof {
            assert(new@.len() == cur@.len());
        }
        let d = match &*self {
            InstData::Array { opcode, imms, .. } => InstData::Array { opcode: *opcode, imms: *imms, args: [new[0]] },
            InstData::Aggregate { opcode, .. } => InstData::Aggregate { opcode: *opcode, args: new },
            InstData::Unary { opcode, .. } => InstData::Unary { opcode: *opcode, args: [new[0]] },
            InstData::Binary { opcode, .. } => InstData::Binary { opcode: *opcode, args: [new[0], new[1]] },
            InstData::Ternary { opcode, .. } => InstData::Ternary {
                opcode: *opcode,
                args: [new[0], new[1], new[2]],
            },
            InstData::Quaternary { opcode, .. } => InstData::Quaternary {
                opcode: *opcode,
                args: [new[0], new[1], new[2], new[3]],
            },
            InstData::Phi { opcode, bbs, .. } => InstData::Phi { opcode: *opcode, args: new, bbs: bbs.clone() },
            InstData::Branch { opcode, bbs, .. } => InstData::Branch { opcode: *opcode, args: [new[0]], bbs: *bbs },
            InstData::Wait { opcode, bbs, .. } => InstData::Wait { opcode: *opcode, bbs: *bbs, args: new },
            InstData::Call { opcode, unit, ins, .. } => InstData::Call {
                opcode: *opcode,
                unit: *unit,
                ins: *ins,
                args: new,
            },
            InstData::InsExt { opcode, args, imms } => {
                if *opcode == Opcode::ExtField || *opcode == Opcode::ExtSlice {
                    InstData::InsExt { opcode: *opcode, args: [new[0], args[1]], imms: *imms }
                } else {
                    InstData::InsExt { opcode: *opcode, args: [new[0], new[1]], imms: *imms }
                }
            },
            InstData::Reg { opcode, modes, .. } => InstData::Reg {
                opcode: *opcode,
                args: new,
                modes: modes.clone(),
            },
            _ => {
                return 0;
            },
        };
        proof {
            assert(d.spec_args() =~= replace_in(self.spec_args(), from, to));
        }
        *self = d;
        count
    }

    /// Replace every use of the block `from` by `to`, and return how many
    /// uses were replaced.
    pub(crate) fn replace_block(&mut self, from: Block, to: Block) -> (count: usize)
        ensures
            same_but_blocks(*old(self), *final(self)),
            final(self).spec_blocks() == replace_in(old(self).spec_blocks(), from, to),
            count == count_in(old(self).spec_blocks(), from),
    {
        let cur = self.blocks();
        let (new, count) = replace_blocks(&cur, from, to);
        proof {
            assert(new@.len() == cur@.len());
        }
        match &*self {
            InstData::Jump { opcode, .. } => {
                let d = InstData::Jump { opcode: *opcode, bbs: [new[0]] };
                proof {
                    assert(d.spec_blocks() =~= replace_in(self.spec_blocks(), from, to));
                }
                *self = d;
            },
            InstData::Phi { opcode, args, .. } => {
                let d = InstData::Phi { opcode: *opcode, args: args.clone(), bbs: new };
                *self = d;
            },
            InstData::Branch { opcode, args, .. } => {
                let d = InstData::Branch { opcode: *opcode, args: *args, bbs: [new[0], new[1]] };
                proof {
                    assert(d.spec_blocks() =~= replace_in(self.spec_blocks(), from, to));
                }
                *self = d;
            },
            InstData::Wait { opcode, args, .. } => {
                let d = InstData::Wait { opcode: *opcode, bbs: [new[0]], args: args.clone() };
                proof {
                    assert(d.spec_blocks() =~= replace_in(self.spec_blocks(), from, to));
                }
                *self = d;
            },
            _ => {
                proof {
                    assert(replace_in(self.spec_blocks(), from, to) =~= self.spec_blocks());
                }
            },
        }
        count
    }

    /// Remove every use of a block: a phi drops its entries for the block,
    /// any other instruction refers to the invalid block in its place.
    /// Returns how many uses were removed.
    pub(crate) fn remove_block(&mut self, block: Block) -> (count: usize)
        requires
            phi_shape_ok(*old(self)),
        ensures
            block_removed(*old(self), *final(self), block, count as nat),
            phi_shape_ok(*final(self)),
    {
        match &*self {
            InstData::Phi { opcode, args, bbs } => {
                let opcode = *opcode;
                let mut args = args.clone();
                let mut bbs = bbs.clone();
                let n = bbs.len();
                let ghost b0 = bbs@;
                let ghost a0 = args@;
                let mut count: usize = 0;
                let mut i: usize = 0;
                while i < n
                    invariant
                        i <= n,
                        n == b0.len(),
                        args@.len() == bbs@.len(),
                        bbs@.len() <= n,
                        count <= i,
                        i >= n || i >= bbs@.len() ==> phi_drop(bbs@, args@, block, i as int, n as int).2 == 0,
                        ({
                            let r = phi_drop(bbs@, args@, block, i as int, n as int);
                            let r0 = phi_drop(b0, a0, block, 0, n as int);
                            r.0 == r0.0 && r.1 == r0.1 && r.2 + count == r0.2
                        }),
                    ensures
                        i >= n || i >= bbs@.len(),
                        args@.len() == bbs@.len(),
                        ({
                            let r0 = phi_drop(b0, a0, block, 0, n as int);
                            bbs@ == r0.0 && args@ == r0.1 && count == r0.2
                        }),
                    decreases n - i,
                {
                    if i >= bbs.len() {
                        break;
                    }
                    if bbs[i] == block {
                        bbs.swap_remove(i);
                        args.swap_remove(i);
                        count = count + 1;
                    }
                    i = i + 1;
                }
                *self = InstData::Phi { opcode, args, bbs };
                count
            },
            _ => self.replace_block(block, Block::invalid()),
        }
    }
}

} // verus!
