//! Instructions of the graph-based representation.

use crate::ty::{array_ty, int_ty, pointer_ty, signal_ty, void_ty, Type, TypeKind};
use crate::value::{BlockRef, InstRef, ValueRef};
use vstd::prelude::*;

verus! {

/// An instruction.
pub struct Inst {
    id: InstRef,
    /// An optional name for the instruction used when emitting assembly.
    name: Option<String>,
    /// The instruction data.
    kind: InstKind,
}

impl Inst {
    /// The reference of the instruction.
    pub closed spec fn spec_id(&self) -> InstRef {
        self.id
    }

    /// The instruction data.
    pub closed spec fn spec_kind(&self) -> InstKind {
        self.kind
    }

    /// The name of the instruction.
    pub closed spec fn spec_name(&self) -> Option<String> {
        self.name
    }

    /// Create a new instruction with the given reference.
    pub fn new(id: InstRef, name: Option<String>, kind: InstKind) -> (i: Inst)
        ensures
            i.spec_id() == id,
            i.spec_name() == name,
            i.spec_kind() == kind,
    {
        Inst { id, name, kind }
    }

    /// Obtain a reference to this instruction.
    pub fn as_ref(&self) -> (r: InstRef)
        ensures
            r == self.spec_id(),
    {
        self.id
    }

    /// Determine the mnemonic for this instruction. The mnemonic is a short
    /// sequence of characters that uniquely identifies the instruction in
    /// human readable assembly text.
    pub fn mnemonic(&self) -> (m: Mnemonic)
        ensures
            m == self.spec_kind().spec_mnemonic(),
    {
        self.kind.mnemonic()
    }

    /// Obtain the data of this instruction.
    pub fn kind(&self) -> (k: &InstKind)
        ensures
            *k == self.spec_kind(),
    {
        &self.kind
    }

    /// The name of this instruction.
    pub fn name(&self) -> (n: Option<&str>)
        ensures
            n is Some == self.spec_name() is Some,
            n is Some ==> n->0@ == self.spec_name()->0@,
    {
        match &self.name {
            Some(n) => Some(n.as_str()),
            None => None,
        }
    }
}

/// A relative position of an instruction. Used to insert or move an
/// instruction to a position relative to the surrounding unit, block, or
/// another instruction.
#[derive(Clone, Copy, PartialEq, Eq, Structural, Debug)]
pub enum InstPosition {
    /// The very first position in the entity, or the first position in the
    /// first block of the function/process.
    Begin,
    /// The very last position in the entity, or the last position in the last
    /// block of the function/process.
    End,
    /// The position just before another instruction.
    Before(InstRef),
    /// The position just after another instruction.
    After(InstRef),
    /// The very first position in the block. Only valid in functions and
    /// processes.
    BlockBegin(BlockRef),
    /// The very last position in the block. Only valid in functions and
    /// processes.
    BlockEnd(BlockRef),
}

/// The different forms an instruction can take.
pub enum InstKind {
    UnaryInst(UnaryOp, Type, ValueRef),
    BinaryInst(BinaryOp, Type, ValueRef, ValueRef),
    CompareInst(CompareOp, Type, ValueRef, ValueRef),
    CallInst(Type, ValueRef, Vec<ValueRef>),
    InstanceInst(Type, ValueRef, Vec<ValueRef>, Vec<ValueRef>),
    WaitInst(BlockRef, Option<ValueRef>, Vec<ValueRef>),
    ReturnInst(ReturnKind),
    BranchInst(BranchKind),
    SignalInst(Type, Option<ValueRef>),
    ProbeInst(Type, ValueRef),
    DriveInst(ValueRef, ValueRef, Option<ValueRef>),
    /// `<result> = var <type>`
    VariableInst(Type),
    /// `<result> = load <type> <ptr>`
    LoadInst(Type, ValueRef),
    /// `store <type> <ptr> <value>`
    StoreInst(Type, ValueRef, ValueRef),
    /// `halt`
    HaltInst,
    /// The `insert` instruction.
    InsertInst(Type, ValueRef, SliceMode, ValueRef),
    /// The `extract` instruction.
    ExtractInst(Type, ValueRef, SliceMode),
}

/// The type that an `insert` or `extract` of `mode` accesses in a value of
/// type `ty`, if the combination is valid.
pub open spec fn sliced_type(ty: Type, mode: SliceMode) -> Option<Type>
    decreases ty,
{
    match (ty, mode) {
        (TypeKind::IntType(_), SliceMode::Element(_)) => Some(TypeKind::IntType(1)),
        (TypeKind::IntType(_), SliceMode::Slice(_, len)) => Some(TypeKind::IntType(len)),
        (TypeKind::ArrayType(_, t), SliceMode::Element(_)) => Some(*t),
        (TypeKind::ArrayType(_, t), SliceMode::Slice(_, len)) => Some(TypeKind::ArrayType(len, t)),
        (TypeKind::StructType(tys), SliceMode::Element(i)) => if i < tys.seq().len() {
            Some(tys.seq()[i as int])
        } else {
            None
        },
        (TypeKind::PointerType(t), _) => match sliced_type(*t, mode) {
            Some(s) => Some(TypeKind::PointerType(Box::new(s))),
            None => None,
        },
        (TypeKind::SignalType(t), _) => match sliced_type(*t, mode) {
            Some(s) => Some(TypeKind::SignalType(Box::new(s))),
            None => None,
        },
        _ => None,
    }
}

/// Determine the accessed type of an extract/insert operation.
pub fn determine_sliced_type(ty: &TypeKind, mode: SliceMode) -> (t: Type)
    requires
        sliced_type(*ty, mode) is Some,
    ensures
        t == sliced_type(*ty, mode)->0,
    decreases ty,
{
    match (ty, mode) {
        (TypeKind::IntType(_), SliceMode::Element(_)) => int_ty(1),
        (TypeKind::IntType(_), SliceMode::Slice(_, len)) => int_ty(len),
        (TypeKind::ArrayType(_, t), SliceMode::Element(_)) => t.duplicate(),
        (TypeKind::ArrayType(_, t), SliceMode::Slice(_, len)) => array_ty(len, t.duplicate()),
        (TypeKind::StructType(tys), SliceMode::Element(i)) => tys.get(i).duplicate(),
        (TypeKind::PointerType(t), _) => pointer_ty(determine_sliced_type(t, mode)),
        (TypeKind::SignalType(t), _) => signal_ty(determine_sliced_type(t, mode)),
        _ => {
            proof {
                assert(false);
            }
            void_ty()
        },
    }
}

impl InstKind {
    /// The result type of the instruction, where it has one.
    pub open spec fn spec_ty(&self) -> Option<Type> {
        match *self {
            InstKind::UnaryInst(_, ty, _) => Some(ty),
            InstKind::BinaryInst(_, ty, _, _) => Some(ty),
            InstKind::CompareInst(..) => Some(TypeKind::IntType(1)),
            InstKind::CallInst(ty, _, _) => match ty {
                TypeKind::FuncType(_, r) => Some(*r),
                _ => None,
            },
            InstKind::InstanceInst(..) | InstKind::WaitInst(..) | InstKind::ReturnInst(_) | InstKind::BranchInst(_) => Some(
                TypeKind::VoidType,
            ),
            InstKind::SignalInst(ty, _) => Some(TypeKind::SignalType(Box::new(ty))),
            InstKind::ProbeInst(ty, _) => Some(ty),
            InstKind::DriveInst(..) => Some(TypeKind::VoidType),
            InstKind::VariableInst(ty) => Some(TypeKind::PointerType(Box::new(ty))),
            InstKind::LoadInst(ty, ..) => Some(ty),
            InstKind::StoreInst(..) => Some(TypeKind::VoidType),
            InstKind::HaltInst => Some(TypeKind::VoidType),
            InstKind::InsertInst(ty, ..) => Some(ty),
            InstKind::ExtractInst(ty, _, mode) => sliced_type(ty, mode),
        }
    }

    /// Get the result type of the instruction.
    pub fn ty(&self) -> (t: Type)
        requires
            self.spec_ty() is Some,
        ensures
            t == self.spec_ty()->0,
    {
        match self {
            InstKind::UnaryInst(_, ty, _) => ty.duplicate(),
            InstKind::BinaryInst(_, ty, _, _) => ty.duplicate(),
            InstKind::CompareInst(..) => int_ty(1),
            InstKind::CallInst(ty, _, _) => ty.unwrap_func().1.duplicate(),
            InstKind::InstanceInst(..) | InstKind::WaitInst(..) | InstKind::ReturnInst(_) | InstKind::BranchInst(_) => void_ty(),
            InstKind::SignalInst(ty, _) => signal_ty(ty.duplicate()),
            InstKind::ProbeInst(ty, _) => ty.duplicate(),
            InstKind::DriveInst(..) => void_ty(),
            InstKind::VariableInst(ty) => pointer_ty(ty.duplicate()),
            InstKind::LoadInst(ty, ..) => ty.duplicate(),
            InstKind::StoreInst(..) => void_ty(),
            InstKind::HaltInst => void_ty(),
            InstKind::InsertInst(ty, ..) => ty.duplicate(),
            InstKind::ExtractInst(ty, _, mode) => determine_sliced_type(ty, *mode),
        }
    }

    /// The mnemonic of the instruction.
    pub open spec fn spec_mnemonic(&self) -> Mnemonic {
        match *self {
            InstKind::UnaryInst(op, _, _) => Mnemonic::Unary(unary_mnemonic(op)),
            InstKind::BinaryInst(op, _, _, _) => Mnemonic::Binary(binary_mnemonic(op)),
            InstKind::CompareInst(..) => Mnemonic::Cmp,
            InstKind::CallInst(..) => Mnemonic::Call,
            InstKind::InstanceInst(..) => Mnemonic::Inst,
            InstKind::WaitInst(..) => Mnemonic::Wait,
            InstKind::ReturnInst(..) => Mnemonic::Ret,
            InstKind::BranchInst(..) => Mnemonic::Br,
            InstKind::SignalInst(..) => Mnemonic::Sig,
            InstKind::ProbeInst(..) => Mnemonic::Prb,
            InstKind::DriveInst(..) => Mnemonic::Drv,
            InstKind::VariableInst(..) => Mnemonic::Var,
            InstKind::LoadInst(..) => Mnemonic::Load,
            InstKind::StoreInst(..) => Mnemonic::Store,
            InstKind::HaltInst => Mnemonic::Halt,
            InstKind::InsertInst(..) => Mnemonic::Insert,
            InstKind::ExtractInst(..) => Mnemonic::Extract,
        }
    }

    /// Get the mnemonic of the instruction.
    pub fn mnemonic(&self) -> (m: Mnemonic)
        ensures
            m == self.spec_mnemonic(),
    {
        match self {
            InstKind::UnaryInst(op, _, _) => Mnemonic::Unary(op.mnemonic()),
            InstKind::BinaryInst(op, _, _, _) => Mnemonic::Binary(op.mnemonic()),
            InstKind::CompareInst(..) => Mnemonic::Cmp,
            InstKind::CallInst(..) => Mnemonic::Call,
            InstKind::InstanceInst(..) => Mnemonic::Inst,
            InstKind::WaitInst(..) => Mnemonic::Wait,
            InstKind::ReturnInst(..) => Mnemonic::Ret,
            InstKind::BranchInst(..) => Mnemonic::Br,
            InstKind::SignalInst(..) => Mnemonic::Sig,
            InstKind::ProbeInst(..) => Mnemonic::Prb,
            InstKind::DriveInst(..) => Mnemonic::Drv,
            InstKind::VariableInst(..) => Mnemonic::Var,
            InstKind::LoadInst(..) => Mnemonic::Load,
            InstKind::StoreInst(..) => Mnemonic::Store,
            InstKind::HaltInst => Mnemonic::Halt,
            InstKind::InsertInst(..) => Mnemonic::Insert,
            InstKind::ExtractInst(..) => Mnemonic::Extract,
        }
    }

    /// Check if this is an instantiation instruction.
    pub fn is_instance(&self) -> (b: bool)
        ensures
            b == (*self is InstanceInst),
    {
        match self {
            InstKind::InstanceInst(..) => true,
            _ => false,
        }
    }
}

/// Unary operators.
#[derive(Clone, Copy, PartialEq, Eq, Structural, Debug, Hash)]
pub enum UnaryOp {
    Not,
}

/// The mnemonic of a unary operator.
pub open spec fn unary_mnemonic(op: UnaryOp) -> UnaryMnemonic {
    match op {
        UnaryOp::Not => UnaryMnemonic::Not,
    }
}

impl UnaryOp {
    /// The mnemonic of the operator.
    pub fn mnemonic(&self) -> (m: UnaryMnemonic)
        ensures
            m == unary_mnemonic(*self),
    {
        match *self {
            UnaryOp::Not => UnaryMnemonic::Not,
        }
    }
}

/// Binary operators.
#[derive(Clone, Copy, PartialEq, Eq, Structural, Debug, Hash)]
pub enum BinaryOp {
    Add,
    Sub,
    Mul,
    Div,
    Mod,
    Rem,
    Shl,
    Shr,
    And,
    Or,
    Xor,
}

/// The mnemonic of a binary operator.
pub open spec fn binary_mnemonic(op: BinaryOp) -> BinaryMnemonic {
    match op {
        BinaryOp::Add => BinaryMnemonic::Add,
        BinaryOp::Sub => BinaryMnemonic::Sub,
        BinaryOp::Mul => BinaryMnemonic::Mul,
        BinaryOp::Div => BinaryMnemonic::Div,
        BinaryOp::Mod => BinaryMnemonic::Mod,
        BinaryOp::Rem => BinaryMnemonic::Rem,
        BinaryOp::Shl => BinaryMnemonic::Shl,
        BinaryOp::Shr => BinaryMnemonic::Shr,
        BinaryOp::And => BinaryMnemonic::And,
        BinaryOp::Or => BinaryMnemonic::Or,
        BinaryOp::Xor => BinaryMnemonic::Xor,
    }
}

impl BinaryOp {
    /// The mnemonic of the operator.
    pub fn mnemonic(&self) -> (m: BinaryMnemonic)
        ensures
            m == binary_mnemonic(*self),
    {
        match *self {
            BinaryOp::Add => BinaryMnemonic::Add,
            BinaryOp::Sub => BinaryMnemonic::Sub,
            BinaryOp::Mul => BinaryMnemonic::Mul,
            BinaryOp::Div => BinaryMnemonic::Div,
            BinaryOp::Mod => BinaryMnemonic::Mod,
            BinaryOp::Rem => BinaryMnemonic::Rem,
            BinaryOp::Shl => BinaryMnemonic::Shl,
            BinaryOp::Shr => BinaryMnemonic::Shr,
            BinaryOp::And => BinaryMnemonic::And,
            BinaryOp::Or => BinaryMnemonic::Or,
            BinaryOp::Xor => BinaryMnemonic::Xor,
        }
    }
}

/// Comparison operators.
#[derive(Clone, Copy, PartialEq, Eq, Structural, Debug, Hash)]
pub enum CompareOp {
    Eq,
    Neq,
    Slt,
    Sgt,
    Sle,
    Sge,
    Ult,
    Ugt,
    Ule,
    Uge,
}

/// The name of a comparison operator in assembly.
pub open spec fn compare_op_name(op: CompareOp) -> Seq<char> {
    match op {
        CompareOp::Eq => "eq"@,
        CompareOp::Neq => "neq"@,
        CompareOp::Slt => "slt"@,
        CompareOp::Sgt => "sgt"@,
        CompareOp::Sle => "sle"@,
        CompareOp::Sge => "sge"@,
        CompareOp::Ult => "ult"@,
        CompareOp::Ugt => "ugt"@,
        CompareOp::Ule => "ule"@,
        CompareOp::Uge => "uge"@,
    }
}

/// Every comparison operator.
pub open spec fn all_compare_ops() -> Seq<CompareOp> {
    seq![
        CompareOp::Eq,
        CompareOp::Neq,
        CompareOp::Slt,
        CompareOp::Sgt,
        CompareOp::Sle,
        CompareOp::Sge,
        CompareOp::Ult,
        CompareOp::Ugt,
        CompareOp::Ule,
        CompareOp::Uge,
    ]
}

/// Two strings have the same characters.
fn str_eq(a: &str, b: &str) -> (r: bool)
    ensures
        r == (a@ == b@),
{
    let n = a.unicode_len();
    if n != b.unicode_len() {
        return false;
    }
    let mut k: usize = 0;
    while k < n
        invariant
            n == a@.len(),
            n == b@.len(),
            k <= n,
            forall|j: int| 0 <= j < k ==> a@[j] == b@[j],
        decreases n - k,
    {
        if a.get_char(k) != b.get_char(k) {
            return false;
        }
        k = k + 1;
    }
    assert(a@ =~= b@);
    true
}

impl CompareOp {
    /// The name of the operator in assembly.
    pub fn to_str(self) -> (s: &'static str)
        ensures
            s@ == compare_op_name(self),
    {
        match self {
            CompareOp::Eq => "eq",
            CompareOp::Neq => "neq",
            CompareOp::Slt => "slt",
            CompareOp::Sgt => "sgt",
            CompareOp::Sle => "sle",
            CompareOp::Sge => "sge",
            CompareOp::Ult => "ult",
            CompareOp::Ugt => "ugt",
            CompareOp::Ule => "ule",
            CompareOp::Uge => "uge",
        }
    }

    /// Parse the name of an operator.
    pub fn from_str(s: &str) -> (r: Option<CompareOp>)
        ensures
            parses_to(s@, r),
    {
        let mut k: usize = 0;
        let ops = [
            CompareOp::Eq,
            CompareOp::Neq,
            CompareOp::Slt,
            CompareOp::Sgt,
            CompareOp::Sle,
            CompareOp::Sge,
            CompareOp::Ult,
            CompareOp::Ugt,
            CompareOp::Ule,
            CompareOp::Uge,
        ];
        assert(ops@ == all_compare_ops());
        while k < 10
            invariant
                ops@ == all_compare_ops(),
                k <= 10,
                forall|j: int| 0 <= j < k ==> compare_op_name(ops@[j]) != s@,
            decreases 10 - k,
        {
            let op = ops[k];
            if str_eq(op.to_str(), s) {
                return Some(op);
            }
            k = k + 1;
        }
        proof {
            assert forall|op: CompareOp| compare_op_name(op) != s@ by {
                match op {
                    CompareOp::Eq => assert(ops@[0] == op),
                    CompareOp::Neq => assert(ops@[1] == op),
                    CompareOp::Slt => assert(ops@[2] == op),
                    CompareOp::Sgt => assert(ops@[3] == op),
                    CompareOp::Sle => assert(ops@[4] == op),
                    CompareOp::Sge => assert(ops@[5] == op),
                    CompareOp::Ult => assert(ops@[6] == op),
                    CompareOp::Ugt => assert(ops@[7] == op),
                    CompareOp::Ule => assert(ops@[8] == op),
                    CompareOp::Uge => assert(ops@[9] == op),
                }
            }
        }
        None
    }
}

/// The return instruction flavor.
pub enum ReturnKind {
    /// Return from a void function.
    Void,
    /// Return from a non-void function.
    Value(Type, ValueRef),
}

/// The branch flavor.
pub enum BranchKind {
    /// An unconditional branch to a block.
    Uncond(BlockRef),
    /// A conditional branch, transferring control to one block if the
    /// condition is 1, or another block if it is 0.
    Cond(ValueRef, BlockRef, BlockRef),
}

/// The insert/extract flavor.
#[derive(Clone, Copy, PartialEq, Eq, Structural, Debug)]
pub enum SliceMode {
    /// Extract or insert a single element.
    Element(usize),
    /// Extract or insert multiple consecutive elements.
    ///
    /// The first field corresponds to the first element to pick. The second
    /// field determines the number of elements to pick.
    Slice(usize, usize),
}

/// Instruction mnemonics.
#[derive(Clone, Copy, PartialEq, Eq, Structural, Debug)]
pub enum Mnemonic {
    Unary(UnaryMnemonic),
    Binary(BinaryMnemonic),
    Call,
    Inst,
    Cmp,
    Wait,
    Ret,
    Br,
    Phi,
    Sig,
    Prb,
    Drv,
    Var,
    Load,
    Store,
    Halt,
    Insert,
    Extract,
}

/// Unary mnemonics.
#[derive(Clone, Copy, PartialEq, Eq, Structural, Debug)]
pub enum UnaryMnemonic {
    Not,
}

/// Binary mnemonics.
#[derive(Clone, Copy, PartialEq, Eq, Structural, Debug)]
pub enum BinaryMnemonic {
    Add,
    Sub,
    Mul,
    Div,
    Mod,
    Rem,
    Shl,
    Shr,
    And,
    Or,
    Xor,
}

/// The text of a unary mnemonic.
pub open spec fn unary_mnemonic_name(m: UnaryMnemonic) -> Seq<char> {
    match m {
        UnaryMnemonic::Not => "not"@,
    }
}

/// The text of a binary mnemonic.
pub open spec fn binary_mnemonic_name(m: BinaryMnemonic) -> Seq<char> {
    match m {
        BinaryMnemonic::Add => "add"@,
        BinaryMnemonic::Sub => "sub"@,
        BinaryMnemonic::Mul => "mul"@,
        BinaryMnemonic::Div => "div"@,
        BinaryMnemonic::Mod => "mod"@,
        BinaryMnemonic::Rem => "rem"@,
        BinaryMnemonic::Shl => "shl"@,
        BinaryMnemonic::Shr => "shr"@,
        BinaryMnemonic::And => "and"@,
        BinaryMnemonic::Or => "or"@,
        BinaryMnemonic::Xor => "xor"@,
    }
}

/// The text of a mnemonic.
pub open spec fn mnemonic_name(m: Mnemonic) -> Seq<char> {
    match m {
        Mnemonic::Unary(u) => unary_mnemonic_name(u),
        Mnemonic::Binary(b) => binary_mnemonic_name(b),
        Mnemonic::Call => "call"@,
        Mnemonic::Inst => "inst"@,
        Mnemonic::Cmp => "cmp"@,
        Mnemonic::Wait => "wait"@,
        Mnemonic::Ret => "ret"@,
        Mnemonic::Br => "br"@,
        Mnemonic::Phi => "phi"@,
        Mnemonic::Sig => "sig"@,
        Mnemonic::Prb => "prb"@,
        Mnemonic::Drv => "drv"@,
        Mnemonic::Var => "var"@,
        Mnemonic::Load => "load"@,
        Mnemonic::Store => "store"@,
        Mnemonic::Halt => "halt"@,
        Mnemonic::Insert => "insert"@,
        Mnemonic::Extract => "extract"@,
    }
}

impl Mnemonic {
    /// Convert the mnemonic to its textual representation.
    pub fn as_str(self) -> (s: &'static str)
        ensures
            s@ == mnemonic_name(self),
    {
        match self {
            Mnemonic::Unary(m) => m.as_str(),
            Mnemonic::Binary(m) => m.as_str(),
            Mnemonic::Call => "call",
            Mnemonic::Inst => "inst",
            Mnemonic::Cmp => "cmp",
            Mnemonic::Wait => "wait",
            Mnemonic::Ret => "ret",
            Mnemonic::Br => "br",
            Mnemonic::Phi => "phi",
            Mnemonic::Sig => "sig",
            Mnemonic::Prb => "prb",
            Mnemonic::Drv => "drv",
            Mnemonic::Var => "var",
            Mnemonic::Load => "load",
            Mnemonic::Store => "store",
            Mnemonic::Halt => "halt",
            Mnemonic::Insert => "insert",
            Mnemonic::Extract => "extract",
        }
    }
}

impl UnaryMnemonic {
    /// Convert the unary mnemonic to its textual representation.
    pub fn as_str(self) -> (s: &'static str)
        ensures
            s@ == unary_mnemonic_name(self),
    {
        match self {
            UnaryMnemonic::Not => "not",
        }
    }
}

impl BinaryMnemonic {
    /// Convert the binary mnemonic to its textual representation.
    pub fn as_str(self) -> (s: &'static str)
        ensures
            s@ == binary_mnemonic_name(self),
    {
        match self {
            BinaryMnemonic::Add => "add",
            BinaryMnemonic::Sub => "sub",
            BinaryMnemonic::Mul => "mul",
            BinaryMnemonic::Div => "div",
            BinaryMnemonic::Mod => "mod",
            BinaryMnemonic::Rem => "rem",
            BinaryMnemonic::Shl => "shl",
            BinaryMnemonic::Shr => "shr",
            BinaryMnemonic::And => "and",
            BinaryMnemonic::Or => "or",
            BinaryMnemonic::Xor => "xor",
        }
    }
}

/// `r` is what parsing `s` as a comparison operator gives: the operator
/// with that name, or `None` if there is none.
pub open spec fn parses_to(s: Seq<char>, r: Option<CompareOp>) -> bool {
    &&& r is Some ==> compare_op_name(r->0) == s
    &&& r is None ==> forall|op: CompareOp| compare_op_name(op) != s
}

/// Parsing the name of a comparison operator gives the operator back.
pub proof fn lemma_compare_op_round_trip(op: CompareOp, r: Option<CompareOp>)
    requires
        parses_to(compare_op_name(op), r),
    ensures
        r == Some(op),
{
    if r is Some {
        lemma_compare_op_names_distinct(op, r->0);
    }
}

/// Distinct comparison operators have distinct names.
pub proof fn lemma_compare_op_names_distinct(a: CompareOp, b: CompareOp)
    ensures
        compare_op_name(a) == compare_op_name(b) ==> a == b,
{
    reveal_strlit("eq");
    reveal_strlit("neq");
    reveal_strlit("slt");
    reveal_strlit("sgt");
    reveal_strlit("sle");
    reveal_strlit("sge");
    reveal_strlit("ult");
    reveal_strlit("ugt");
    reveal_strlit("ule");
    reveal_strlit("uge");
    if compare_op_name(a) == compare_op_name(b) && a != b {
        assert(compare_op_name(a).len() == compare_op_name(b).len());
        assert(compare_op_name(a)[0] == compare_op_name(b)[0]);
        assert(compare_op_name(a)[1] == compare_op_name(b)[1]);
        assert(compare_op_name(a)[compare_op_name(a).len() - 1] == compare_op_name(b)[compare_op_name(b).len() - 1]);
    }
}

} // verus!
