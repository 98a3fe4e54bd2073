//! Functions, processes, and entities.
//!
//! A unit bundles a signature with the data flow graph (instructions and
//! values), the control flow graph (basic blocks), and the layout that puts
//! blocks and instructions into order.

use crate::ir::inst::{
    block_removed, count_in, phi_drop, phi_shape_ok, replace_in, same_but_args, same_but_blocks, sigptr_inner, unpack_sigptr, unpacked_sigptr, with_unpacked_sigptr, InstData, Opcode, RegMode,
    RegTrigger,
};
use crate::ir::keys::{Arg, Block, ExtUnit, Inst, UnitId, Value};
use crate::konst::{IntValue, TimeValue};
use crate::ir::layout::{as_blocks, as_insts, lemma_insert_contains, opt_block, opt_inst, FunctionLayout};
use crate::ir::order::{first_of, last_of, next_in, prev_in};
use crate::ir::sig::Signature;
use crate::ty::{array_ty, int_ty, pointer_ty, signal_ty, struct_ty, void_ty, Type, TypeKind};
use vstd::prelude::*;

verus! {

/// A name of a function, process, or entity.
pub enum UnitName {
    /// An anonymous name, like `%42`.
    Anonymous(u32),
    /// A local name, like `%foo`.
    Local(String),
    /// A global name, like `@foo`.
    Global(String),
}

impl UnitName {
    /// Create a new anonymous unit name.
    pub fn anonymous(id: u32) -> (n: Self)
        ensures
            n == UnitName::Anonymous(id),
    {
        UnitName::Anonymous(id)
    }

    /// Create a new local unit name.
    pub fn local(name: &str) -> (n: Self)
        ensures
            n is Local,
            n->Local_0@ == name@,
    {
        UnitName::Local(name.to_owned())
    }

    /// Create a new global unit name.
    pub fn global(name: &str) -> (n: Self)
        ensures
            n is Global,
            n->Global_0@ == name@,
    {
        UnitName::Global(name.to_owned())
    }

    /// Check whether this is a local name.
    ///
    /// Local names can only be linked within the same module.
    pub fn is_local(&self) -> (b: bool)
        ensures
            b == (self is Anonymous || self is Local),
    {
        match self {
            UnitName::Anonymous(..) | UnitName::Local(..) => true,
            _ => false,
        }
    }

    /// Check whether this is a global name.
    ///
    /// Global names may be referenced by other modules and are considered by
    /// the global linker.
    pub fn is_global(&self) -> (b: bool)
        ensures
            b == (self is Global),
    {
        match self {
            UnitName::Global(..) => true,
            _ => false,
        }
    }

    /// Get the underlying name.
    pub fn get_name(&self) -> (r: Option<&str>)
        ensures
            r is Some <==> !(self is Anonymous),
            self is Local ==> r->0@ == self->Local_0@,
            self is Global ==> r->0@ == self->Global_0@,
    {
        match self {
            UnitName::Global(n) | UnitName::Local(n) => Some(n.as_str()),
            _ => None,
        }
    }

    /// A copy of this name.
    pub fn duplicate(&self) -> (n: UnitName)
        ensures
            n == *self,
    {
        match self {
            UnitName::Anonymous(id) => UnitName::Anonymous(*id),
            UnitName::Local(s) => UnitName::Local(s.clone()),
            UnitName::Global(s) => UnitName::Global(s.clone()),
        }
    }
}

/// The three different units that may appear in LLHD IR.
#[derive(Clone, Copy, PartialEq, Eq, Structural, Debug)]
pub enum UnitKind {
    /// A `Function`.
    Function,
    /// A `Process`.
    Process,
    /// An `Entity`.
    Entity,
}

/// The keyword that introduces a unit of the given kind in assembly.
pub open spec fn unit_kind_name(k: UnitKind) -> Seq<char> {
    match k {
        UnitKind::Function => "func"@,
        UnitKind::Process => "proc"@,
        UnitKind::Entity => "entity"@,
    }
}

impl UnitKind {
    /// The keyword that introduces a unit of this kind in assembly.
    pub fn as_str(self) -> (s: &'static str)
        ensures
            s@ == unit_kind_name(self),
    {
        match self {
            UnitKind::Function => "func",
            UnitKind::Process => "proc",
            UnitKind::Entity => "entity",
        }
    }
}

/// Internal table storage for values.
pub enum ValueData {
    /// The invalid value placeholder.
    Invalid,
    /// The value is the result of an instruction.
    Inst { ty: Type, inst: Inst },
    /// The value is an argument of the `Function`, `Process`, or `Entity`.
    Arg { ty: Type, arg: Arg },
    /// The value is a placeholder. Used during PHI node construction.
    Placeholder { ty: Type },
}

impl ValueData {
    /// Check if the value is a placeholder.
    pub fn is_placeholder(&self) -> (b: bool)
        ensures
            b == (self is Placeholder),
    {
        match self {
            ValueData::Placeholder { .. } => true,
            _ => false,
        }
    }
}

/// Internal table storage for blocks.
pub struct BlockData {
    /// The name of the block.
    pub name: Option<String>,
}

/// Another unit referenced within a `Function`, `Process`, or `Entity`.
pub struct ExtUnitData {
    /// The name of the referenced unit.
    pub name: UnitName,
    /// The signature of the referenced unit.
    pub sig: Signature,
}

/// A function, process, or entity.
pub struct UnitData {
    pub kind: UnitKind,
    pub name: UnitName,
    sig: Signature,
    insts: Vec<Option<InstData>>,
    results: Vec<Option<Value>>,
    values: Vec<Option<ValueData>>,
    value_names: Vec<Option<String>>,
    args: Vec<Option<Value>>,
    ext_units: Vec<ExtUnitData>,
    blocks: Vec<Option<BlockData>>,
    layout: FunctionLayout,
    value_hints: Vec<(Value, Option<u32>)>,
    block_hints: Vec<(Block, Option<u32>)>,
    location_hints: Vec<(Inst, Option<usize>)>,
}

/// Entry `i` of a table of optional entries, `None` past its end.
pub open spec fn entry_at<T>(s: Seq<Option<T>>, i: int) -> Option<T> {
    if 0 <= i < s.len() {
        s[i]
    } else {
        None
    }
}

/// Entry `i` of a table of optional values is present.
pub open spec fn has_value(s: Seq<Option<Value>>, i: int) -> bool {
    0 <= i < s.len() && s[i] is Some
}

/// The value data describes the result of `inst`.
pub open spec fn is_result_of(vd: Option<ValueData>, inst: Inst) -> bool {
    match vd {
        Some(ValueData::Inst { inst: i, .. }) => i == inst,
        _ => false,
    }
}

/// The value data describes the argument `arg`.
pub open spec fn is_arg_value(vd: Option<ValueData>, arg: Arg) -> bool {
    match vd {
        Some(ValueData::Arg { arg: a, .. }) => a == arg,
        _ => false,
    }
}

/// The type carried by the value data.
pub open spec fn value_data_ty(vd: ValueData) -> Type {
    match vd {
        ValueData::Invalid => void_ty_spec(),
        ValueData::Inst { ty, .. } => ty,
        ValueData::Arg { ty, .. } => ty,
        ValueData::Placeholder { ty } => ty,
    }
}

/// The void type.
pub open spec fn void_ty_spec() -> Type {
    crate::ty::TypeKind::VoidType
}

/// An instruction with this opcode and type produces a value.
pub open spec fn produces_value(op: Opcode, ty: Type) -> bool {
    op == Opcode::Call || !(ty is VoidType)
}

impl UnitData {
    /// The name of the unit.
    pub fn name_ref(&self) -> (n: &UnitName)
        ensures
            *n == self.spec_name(),
    {
        &self.name
    }

    /// The signature of the unit.
    pub fn sig_ref(&self) -> (s: &Signature)
        ensures
            *s == self.spec_sig(),
    {
        &self.sig
    }

    /// The signature of a well-formed unit is well-formed.
    pub proof fn lemma_sig_wf(&self)
        requires
            self.wf(),
        ensures
            self.spec_sig()@.wf(),
    {
    }

    /// The kind of the unit.
    pub fn kind_of(&self) -> (k: UnitKind)
        ensures
            k == self.spec_kind(),
    {
        self.kind
    }
}

impl UnitData {
    /// The blocks in layout order, as raw ids.
    pub closed spec fn block_ids(&self) -> Seq<u32> {
        self.layout.block_seq()
    }

    /// The instructions of an inserted block in layout order, as raw ids.
    pub closed spec fn inst_ids(&self, bb: Block) -> Seq<u32> {
        self.layout.inst_seq(bb.0)
    }

    /// The block an instruction has been placed into, if any.
    pub closed spec fn inst_home(&self, inst: Inst) -> Option<Block> {
        opt_block(self.layout.inst_home(inst.0))
    }

    /// The instruction sits in the order of an inserted block.
    pub open spec fn inst_placed(&self, inst: Inst) -> bool {
        &&& self.inst_home(inst) is Some
        &&& self.block_ids().contains((self.inst_home(inst)->0).0)
        &&& self.inst_ids(self.inst_home(inst)->0).contains(inst.0)
    }

    /// The data of an instruction, if it exists.
    pub closed spec fn spec_inst(&self, inst: Inst) -> Option<InstData> {
        entry_at(self.insts@, inst.0 as int)
    }

    /// The result value of an instruction, if it has one.
    pub closed spec fn spec_result(&self, inst: Inst) -> Option<Value> {
        entry_at(self.results@, inst.0 as int)
    }

    /// The data of a value, if it exists.
    pub closed spec fn spec_value(&self, value: Value) -> Option<ValueData> {
        entry_at(self.values@, value.0 as int)
    }

    /// The name of a value, if it has one.
    pub closed spec fn spec_value_name(&self, value: Value) -> Option<String> {
        entry_at(self.value_names@, value.0 as int)
    }

    /// The value of an argument, if it has one.
    pub closed spec fn spec_arg_value(&self, arg: Arg) -> Option<Value> {
        entry_at(self.args@, arg.0 as int)
    }

    /// The data of a block, if it exists.
    pub closed spec fn spec_block(&self, bb: Block) -> Option<BlockData> {
        entry_at(self.blocks@, bb.0 as int)
    }

    /// The external units imported so far.
    pub closed spec fn spec_exts(&self) -> Seq<ExtUnitData> {
        self.ext_units@
    }

    /// The number of block ids handed out so far.
    pub closed spec fn block_bound(&self) -> nat {
        self.blocks@.len()
    }

    /// The number of instruction ids handed out so far.
    pub closed spec fn inst_bound(&self) -> nat {
        self.insts@.len()
    }

    /// The number of value ids handed out so far.
    pub closed spec fn value_bound(&self) -> nat {
        self.values@.len()
    }

    /// The kind of the unit.
    pub closed spec fn spec_kind(&self) -> UnitKind {
        self.kind
    }

    /// The name of the unit.
    pub closed spec fn spec_name(&self) -> UnitName {
        self.name
    }

    /// The unit's signature.
    pub closed spec fn spec_sig(&self) -> Signature {
        self.sig
    }

    /// The unit's internal tables agree with each other, and every argument
    /// of the signature has a value.
    pub closed spec fn wf(&self) -> bool {
        &&& self.tables_ok()
        &&& self.args_complete()
    }

    /// Every argument of the signature has a value.
    pub closed spec fn args_complete(&self) -> bool {
        forall|k: int| 0 <= k < self.sig@.all_args().len() ==> #[trigger] has_value(
            self.args@,
            self.sig@.all_args()[k].0 as int,
        )
    }

    /// The unit's internal tables agree with each other.
    pub closed spec fn tables_ok(&self) -> bool {
        &&& self.layout.wf()
        &&& self.sig@.wf()
        &&& self.results@.len() == self.insts@.len()
        &&& self.value_names@.len() == self.values@.len()
        &&& self.insts@.len() + 1 < u32::MAX
        &&& self.values@.len() + 1 < u32::MAX
        &&& self.blocks@.len() + 1 < u32::MAX
        &&& self.ext_units@.len() + 1 < u32::MAX
        &&& self.args@.len() == self.sig@.args.len()
        &&& forall|b: u32| #[trigger] self.layout.block_seq().contains(b) ==> entry_at(self.blocks@, b as int) is Some
        &&& forall|b: u32, i: u32|
            self.layout.block_seq().contains(b) && #[trigger] self.layout.inst_seq(b).contains(i)
                ==> entry_at(self.insts@, i as int) is Some
        &&& forall|i: u32| (i as int) >= self.insts@.len() ==> #[trigger] self.layout.inst_home(i) is None
        &&& forall|i: int| #[trigger] has_value(self.results@, i) ==> {
            &&& ((self.results@[i]->0).0 as int) < self.values@.len()
            &&& is_result_of(self.values@[(self.results@[i]->0).0 as int], Inst(i as u32))
        }
        &&& forall|a: int| #[trigger] has_value(self.args@, a) ==> {
            &&& ((self.args@[a]->0).0 as int) < self.values@.len()
            &&& is_arg_value(self.values@[(self.args@[a]->0).0 as int], Arg(a as u32))
        }
    }

    /// The layout is the same in both units.
    pub open spec fn same_layout(self, o: UnitData) -> bool {
        &&& self.block_ids() == o.block_ids()
        &&& forall|bb: Block| #[trigger] self.inst_ids(bb) == o.inst_ids(bb)
        &&& forall|i: Inst| #[trigger] self.inst_home(i) == o.inst_home(i)
    }

    /// The blocks are the same in both units.
    pub open spec fn same_cfg(self, o: UnitData) -> bool {
        &&& self.block_bound() == o.block_bound()
        &&& forall|bb: Block| #[trigger] self.spec_block(bb) == o.spec_block(bb)
    }

    /// Instructions and values are the same in both units.
    pub open spec fn same_dfg(self, o: UnitData) -> bool {
        &&& self.spec_kind() == o.spec_kind()
        &&& self.spec_name() == o.spec_name()
        &&& self.spec_sig() == o.spec_sig()
        &&& self.inst_bound() == o.inst_bound()
        &&& self.value_bound() == o.value_bound()
        &&& self.spec_exts() == o.spec_exts()
        &&& forall|i: Inst| #[trigger] self.spec_inst(i) == o.spec_inst(i)
        &&& forall|i: Inst| #[trigger] self.spec_result(i) == o.spec_result(i)
        &&& forall|v: Value| #[trigger] self.spec_value(v) == o.spec_value(v)
        &&& forall|v: Value| #[trigger] self.spec_value_name(v) == o.spec_value_name(v)
        &&& forall|a: Arg| #[trigger] self.spec_arg_value(a) == o.spec_arg_value(a)
    }

    /// The last instruction of `b`, if any, only branches to inserted blocks.
    pub open spec fn branches_inserted(&self, b: u32) -> bool {
        self.inst_ids(Block(b)).len() > 0 ==> {
            let term = Inst(self.inst_ids(Block(b)).last());
            forall|k: int| 0 <= k < self.spec_inst(term)->0.spec_blocks().len()
                ==> self.block_ids().contains(#[trigger] self.spec_inst(term)->0.spec_blocks()[k].0)
        }
    }

    /// Every terminator of an inserted block only branches to inserted
    /// blocks.
    pub open spec fn targets_inserted(&self) -> bool {
        forall|b: u32| #[trigger] self.block_ids().contains(b) ==> self.branches_inserted(b)
    }

    /// Every inserted block ends in an instruction.
    pub open spec fn blocks_terminated(&self) -> bool {
        forall|b: u32| #[trigger] self.block_ids().contains(b) ==> self.inst_ids(Block(b)).len() > 0
    }

    /// Every instruction of an inserted block exists in the data flow graph,
    /// and every inserted block exists in the control flow graph.
    pub proof fn lemma_placed_exists(&self, b: u32, i: u32)
        requires
            self.wf(),
            self.block_ids().contains(b),
            self.inst_ids(Block(b)).contains(i),
        ensures
            self.spec_inst(Inst(i)) is Some,
            self.spec_block(Block(b)) is Some,
            (i as int) < self.inst_bound(),
            (b as int) < self.block_bound(),
    {
    }

    /// No block appears twice in the layout, and no instruction twice in
    /// the order of an inserted block.
    pub proof fn lemma_distinct(&self, bb: Block)
        requires
            self.wf(),
        ensures
            self.block_ids().no_duplicates(),
            self.block_ids().contains(bb.0) ==> self.inst_ids(bb).no_duplicates(),
    {
        self.layout.lemma_distinct(bb.0);
    }

    /// Every inserted block exists, with an id below the bound.
    pub proof fn lemma_block_bound(&self, b: u32)
        requires
            self.wf(),
            self.block_ids().contains(b),
        ensures
            self.spec_block(Block(b)) is Some,
            (b as int) < self.block_bound(),
            self.block_bound() + 1 < u32::MAX,
    {
    }

    /// Every argument listed by the signature of a well-formed unit names an
    /// entry of the signature's table and has a value, which exists and
    /// describes that argument.
    pub proof fn lemma_listed_arg(&self, k: int)
        requires
            self.wf(),
            0 <= k < self.spec_sig()@.all_args().len(),
        ensures
            (self.spec_sig()@.all_args()[k].0 as int) < self.spec_sig()@.args.len(),
            self.spec_arg_value(self.spec_sig()@.all_args()[k]) is Some,
            is_arg_value(
                self.spec_value(self.spec_arg_value(self.spec_sig()@.all_args()[k])->0),
                self.spec_sig()@.all_args()[k],
            ),
    {
        let a = self.spec_sig()@.all_args()[k];
        assert(has_value(self.args@, a.0 as int));
        self.sig.lemma_all_args_valid(k);
    }

    /// Existing values and blocks have ids below their bounds.
    pub proof fn lemma_ids_bounded(&self, v: Value, bb: Block)
        ensures
            self.spec_value(v) is Some ==> (v.0 as int) < self.value_bound(),
            self.spec_block(bb) is Some ==> (bb.0 as int) < self.block_bound(),
    {
    }

    /// Ids at or past the bound name no placed instruction.
    pub proof fn lemma_fresh_unplaced(&self, i: Inst)
        requires
            self.wf(),
            (i.0 as int) >= self.inst_bound(),
        ensures
            self.inst_home(i) is None,
            self.spec_inst(i) is None,
    {
        assert(self.layout.inst_home(i.0) is None);
    }

    /// A result value maps back to its instruction, and an argument value
    /// to its argument.
    pub proof fn lemma_values_consistent(&self)
        requires
            self.wf(),
        ensures
            forall|i: Inst| #[trigger] self.spec_result(i) is Some ==> is_result_of(
                self.spec_value(self.spec_result(i)->0),
                i,
            ),
            forall|a: Arg| #[trigger] self.spec_arg_value(a) is Some ==> is_arg_value(
                self.spec_value(self.spec_arg_value(a)->0),
                a,
            ),
    {
        assert forall|i: Inst| #[trigger] self.spec_result(i) is Some implies is_result_of(
            self.spec_value(self.spec_result(i)->0),
            i,
        ) by {
            assert(has_value(self.results@, i.0 as int));
        }
        assert forall|a: Arg| #[trigger] self.spec_arg_value(a) is Some implies is_arg_value(
            self.spec_value(self.spec_arg_value(a)->0),
            a,
        ) by {
            assert(has_value(self.args@, a.0 as int));
        }
    }

    /// An empty unit with the given signature but no argument values yet.
    fn empty(kind: UnitKind, name: UnitName, sig: Signature) -> (u: UnitData)
        requires
            sig@.wf(),
            sig@.args.len() + 3 < u32::MAX,
        ensures
            u.tables_ok(),
            u.kind == kind,
            u.name == name,
            u.sig == sig,
            u.layout.block_seq() == Seq::<u32>::empty(),
            u.insts@.len() == 0,
            u.values@.len() == 0,
            u.blocks@.len() == 0,
            u.ext_units@.len() == 0,
            u.args@ == Seq::new(sig@.args.len(), |i: int| None::<Value>),
    {
        let n = sig.arg_count();
        let mut args: Vec<Option<Value>> = Vec::new();
        let mut k: usize = 0;
        while k < n
            invariant
                k <= n,
                n == sig@.args.len(),
                args@ == Seq::new(k as nat, |i: int| None::<Value>),
            decreases n - k,
        {
            args.push(None);
            k = k + 1;
            assert(args@ =~= Seq::new(k as nat, |i: int| None::<Value>));
        }
        let layout = FunctionLayout::new();
        let u = UnitData {
            kind,
            name,
            sig,
            insts: Vec::new(),
            results: Vec::new(),
            values: Vec::new(),
            value_names: Vec::new(),
            args,
            ext_units: Vec::new(),
            blocks: Vec::new(),
            layout,
            value_hints: Vec::new(),
            block_hints: Vec::new(),
            location_hints: Vec::new(),
        };
        proof {
            assert forall|a: int| #[trigger] has_value(u.args@, a) implies false by {}
        }
        u
    }

    /// Add a value to the data flow graph.
    fn add_value(&mut self, data: ValueData) -> (v: Value)
        requires
            old(self).tables_ok(),
            old(self).value_bound() + 2 < u32::MAX,
        ensures
            final(self).tables_ok(),
            v.0 == old(self).value_bound(),
            final(self).value_bound() == old(self).value_bound() + 1,
            final(self).spec_value(v) == Some(data),
            final(self).spec_value_name(v) is None,
            forall|w: Value| w != v ==> #[trigger] final(self).spec_value(w) == old(self).spec_value(w),
            forall|w: Value| w != v ==> #[trigger] final(self).spec_value_name(w) == old(self).spec_value_name(w),
            final(self).same_layout(*old(self)),
            final(self).same_cfg(*old(self)),
            final(self).spec_kind() == old(self).spec_kind(),
            final(self).spec_name() == old(self).spec_name(),
            final(self).spec_sig() == old(self).spec_sig(),
            final(self).inst_bound() == old(self).inst_bound(),
            final(self).spec_exts() == old(self).spec_exts(),
            forall|i: Inst| #[trigger] final(self).spec_inst(i) == old(self).spec_inst(i),
            forall|i: Inst| #[trigger] final(self).spec_result(i) == old(self).spec_result(i),
            forall|a: Arg| #[trigger] final(self).spec_arg_value(a) == old(self).spec_arg_value(a),
            final(self).args == old(self).args,
            final(self).insts == old(self).insts,
            final(self).results == old(self).results,
            final(self).values@ == old(self).values@.push(Some(data)),
            final(self).value_names@ == old(self).value_names@.push(None),
            final(self).layout == old(self).layout,
            final(self).blocks == old(self).blocks,
            final(self).sig == old(self).sig,
            final(self).value_hints == old(self).value_hints,
            final(self).block_hints == old(self).block_hints,
            final(self).location_hints == old(self).location_hints,
            final(self).ext_units == old(self).ext_units,
    {
        let v = Value(self.values.len() as u32);
        self.values.push(Some(data));
        self.value_names.push(None);
        proof {
            assert forall|i: int| #[trigger] has_value(self.results@, i) implies {
                &&& ((self.results@[i]->0).0 as int) < self.values@.len()
                &&& is_result_of(self.values@[(self.results@[i]->0).0 as int], Inst(i as u32))
            } by {
                assert(has_value(old(self).results@, i));
            }
            assert forall|a: int| #[trigger] has_value(self.args@, a) implies {
                &&& ((self.args@[a]->0).0 as int) < self.values@.len()
                &&& is_arg_value(self.values@[(self.args@[a]->0).0 as int], Arg(a as u32))
            } by {
                assert(has_value(old(self).args@, a));
            }
        }
        v
    }

    /// Add an instruction to the data flow graph, with a result value if it
    /// produces one.
    fn add_inst_dfg(&mut self, data: InstData, ty: Type) -> (inst: Inst)
        requires
            old(self).tables_ok(),
            old(self).value_bound() + 2 < u32::MAX,
            old(self).inst_bound() + 2 < u32::MAX,
        ensures
            final(self).tables_ok(),
            inst.0 == old(self).inst_bound(),
            final(self).inst_bound() == old(self).inst_bound() + 1,
            final(self).spec_inst(inst) == Some(data),
            forall|i: Inst| i != inst ==> #[trigger] final(self).spec_inst(i) == old(self).spec_inst(i),
            forall|i: Inst| i != inst ==> #[trigger] final(self).spec_result(i) == old(self).spec_result(i),
            produces_value(data.spec_opcode(), ty) ==> {
                &&& final(self).spec_result(inst) == Some(Value(old(self).value_bound() as u32))
                &&& final(self).value_bound() == old(self).value_bound() + 1
                &&& final(self).spec_value(Value(old(self).value_bound() as u32)) == Some(
                    ValueData::Inst { ty, inst },
                )
                &&& final(self).spec_value_name(Value(old(self).value_bound() as u32)) is None
            },
            !produces_value(data.spec_opcode(), ty) ==> {
                &&& final(self).spec_result(inst) is None
                &&& final(self).value_bound() == old(self).value_bound()
            },
            forall|w: Value| (w.0 as int) < old(self).value_bound() ==> #[trigger] final(self).spec_value(w)
                == old(self).spec_value(w),
            forall|w: Value| (w.0 as int) < old(self).value_bound() ==> #[trigger] final(self).spec_value_name(w)
                == old(self).spec_value_name(w),
            final(self).same_layout(*old(self)),
            final(self).same_cfg(*old(self)),
            final(self).spec_kind() == old(self).spec_kind(),
            final(self).spec_name() == old(self).spec_name(),
            final(self).spec_sig() == old(self).spec_sig(),
            final(self).spec_exts() == old(self).spec_exts(),
            forall|a: Arg| #[trigger] final(self).spec_arg_value(a) == old(self).spec_arg_value(a),
            final(self).args == old(self).args,
            final(self).layout == old(self).layout,
            final(self).blocks == old(self).blocks,
            final(self).sig == old(self).sig,
            final(self).ext_units == old(self).ext_units,
            final(self).value_hints == old(self).value_hints,
            final(self).block_hints == old(self).block_hints,
            final(self).location_hints == old(self).location_hints,
    {
        let has_result = data.opcode() == Opcode::Call || !ty.is_void();
        let inst = Inst(self.insts.len() as u32);
        proof { assert(self.layout.inst_home(inst.0) is None); }
        let result = if has_result {
            Some(self.add_value(ValueData::Inst { ty, inst }))
        } else {
            None
        };
        let ghost mid = *self;
        self.insts.push(Some(data));
        self.results.push(result);
        proof {
            assert forall|i: int| #[trigger] has_value(self.results@, i) implies {
                &&& ((self.results@[i]->0).0 as int) < self.values@.len()
                &&& is_result_of(self.values@[(self.results@[i]->0).0 as int], Inst(i as u32))
            } by {
                if i < mid.results@.len() {
                    assert(has_value(mid.results@, i));
                }
            }
            assert forall|b: u32, i: u32|
                self.layout.block_seq().contains(b) && #[trigger] self.layout.inst_seq(b).contains(i)
                    implies entry_at(self.insts@, i as int) is Some by {
                assert(entry_at(mid.insts@, i as int) is Some);
            }
            assert forall|i: u32| (i as int) >= self.insts@.len() implies #[trigger] self.layout.inst_home(i) is None by {
                assert(mid.layout.inst_home(i) is None);
            }
            assert forall|i: Inst| i != inst implies #[trigger] self.spec_inst(i) == old(self).spec_inst(i)
                && self.spec_result(i) == old(self).spec_result(i) by {
                assert(i.0 != inst.0);
            }
        }
        inst
    }

    /// Add a block to the control flow graph, without placing it in the
    /// layout.
    fn add_block_cfg(&mut self, name: Option<String>) -> (bb: Block)
        requires
            old(self).tables_ok(),
            old(self).block_bound() + 2 < u32::MAX,
        ensures
            final(self).tables_ok(),
            bb.0 == old(self).block_bound(),
            final(self).block_bound() == old(self).block_bound() + 1,
            final(self).spec_block(bb) == Some(BlockData { name }),
            forall|b: Block| b != bb ==> #[trigger] final(self).spec_block(b) == old(self).spec_block(b),
            !final(self).block_ids().contains(bb.0),
            final(self).same_layout(*old(self)),
            final(self).same_dfg(*old(self)),
    {
        let bb = Block(self.blocks.len() as u32);
        proof {
            if self.layout.block_seq().contains(bb.0) {
                assert(entry_at(self.blocks@, bb.0 as int) is Some);
            }
        }
        self.blocks.push(Some(BlockData { name }));
        proof {
            assert forall|b: u32| #[trigger] self.layout.block_seq().contains(b) implies entry_at(self.blocks@, b as int) is Some by {
                assert(entry_at(old(self).blocks@, b as int) is Some);
            }
        }
        bb
    }

    /// Create a new unit.
    ///
    /// Every argument of the signature receives a value. An entity receives
    /// a single block that ends in a `halt` instruction.
    pub fn new(kind: UnitKind, name: UnitName, sig: Signature) -> (u: UnitData)
        requires
            sig@.wf(),
            sig@.args.len() + 8 < u32::MAX,
            sig@.all_args().len() + 8 < u32::MAX,
            kind == UnitKind::Function ==> sig@.oup.len() == 0 && sig@.retty is Some,
            kind != UnitKind::Function ==> sig@.retty is None,
        ensures
            u.wf(),
            u.spec_kind() == kind,
            u.spec_name() == name,
            u.spec_sig()@ == sig@,
            forall|k: int| 0 <= k < sig@.all_args().len() ==> #[trigger] u.spec_arg_value(sig@.all_args()[k]) is Some,
            u.spec_exts().len() == 0,
            kind == UnitKind::Entity ==> u.block_ids() == seq![0u32],
            kind == UnitKind::Entity ==> u.inst_ids(Block(0)) == seq![0u32],
            kind == UnitKind::Entity ==> u.spec_inst(Inst(0)) == Some(InstData::Nullary { opcode: Opcode::Halt }),
            kind != UnitKind::Entity ==> u.block_ids() == Seq::<u32>::empty(),
            kind != UnitKind::Entity ==> u.inst_bound() == 0,
    {
        let mut data = UnitData::empty(kind, name, sig);
        let all = data.sig.args();
        let mut k: usize = 0;
        while k < all.len()
            invariant
                k <= all@.len(),
                all@ == data.sig@.all_args(),
                data.tables_ok(),
                data.sig@.args.len() + 8 < u32::MAX,
                all@.len() + 8 < u32::MAX,
                data.kind == kind,
                data.name == name,
                data.sig@ == sig@,
                data.layout.block_seq() == Seq::<u32>::empty(),
                data.insts@.len() == 0,
                data.blocks@.len() == 0,
                data.ext_units@.len() == 0,
                data.values@.len() == k,
                forall|j: int| 0 <= j < k ==> #[trigger] has_value(data.args@, all@[j].0 as int),
            decreases all@.len() - k,
        {
            let arg = all[k];
            proof {
                data.sig.lemma_all_args_valid(k as int);
            }
            let ty = data.sig.arg_type(arg);
            let ghost before = data;
            let value = data.add_value(ValueData::Arg { ty, arg });
            let ghost mid = data;
            data.args.set(arg.0 as usize, Some(value));
            k = k + 1;
            proof {
                assert forall|a: int| #[trigger] has_value(data.args@, a) implies {
                    &&& ((data.args@[a]->0).0 as int) < data.values@.len()
                    &&& is_arg_value(data.values@[(data.args@[a]->0).0 as int], Arg(a as u32))
                } by {
                    if a != arg.0 as int {
                        assert(has_value(before.args@, a));
                    }
                }
                assert forall|j: int| 0 <= j < k implies #[trigger] has_value(data.args@, all@[j].0 as int) by {
                    if j < k - 1 {
                        assert(has_value(before.args@, all@[j].0 as int));
                    } else {
                        assert(all@[j] == arg);
                    }
                }
            }
        }
        proof {
            assert forall|kk: int| 0 <= kk < sig@.all_args().len() implies #[trigger] data.spec_arg_value(sig@.all_args()[kk]) is Some by {
                assert(has_value(data.args@, all@[kk].0 as int));
            }
        }
        if kind == UnitKind::Entity {
            let ghost d0 = data;
            let mut builder = UnitBuilder { unit: UnitId::invalid(), data, pos: InsertPos::Nowhere };
            let bb = builder.block();
            builder.append_to(bb);
            proof {
                assert(builder@.block_ids()[builder@.block_ids().len() - 1] == bb.0);
            }
            let halt = builder.build_inst(InstData::Nullary { opcode: Opcode::Halt }, void_ty());
            data = builder.finish();
            proof {
                assert(data.block_ids() =~= seq![0u32]);
                assert(data.inst_ids(Block(0)) =~= seq![0u32]);
                assert forall|kk: int| 0 <= kk < sig@.all_args().len() implies #[trigger] data.spec_arg_value(sig@.all_args()[kk]) is Some by {
                    assert(d0.spec_arg_value(sig@.all_args()[kk]) is Some);
                }
            }
        }
        data
    }
}


impl UnitData {
    /// Instruction `inst` exists and reads `value`.
    pub open spec fn reads_value(&self, inst: Inst, value: Value) -> bool {
        &&& self.spec_inst(inst) is Some
        &&& self.spec_inst(inst)->0.spec_args().contains(value)
    }
}

/// The instruction reads `value` as one of its arguments.
fn inst_reads(data: &InstData, value: Value) -> (b: bool)
    ensures
        b == data.spec_args().contains(value),
{
    let args = data.args();
    let mut k: usize = 0;
    while k < args.len()
        invariant
            k <= args@.len(),
            args@ == data.spec_args(),
            forall|j: int| 0 <= j < k ==> args@[j] != value,
        decreases args@.len() - k,
    {
        if args[k] == value {
            return true;
        }
        k = k + 1;
    }
    false
}

/// The argument values of a list of arguments.
pub open spec fn arg_values(d: UnitData, args: Seq<Arg>) -> Seq<Value> {
    args.map_values(|a: Arg| d.spec_arg_value(a)->0)
}

/// An immutable function, process, or entity.
#[derive(Clone, Copy)]
pub struct Unit<'a> {
    unit: UnitId,
    data: &'a UnitData,
}

impl<'a> View for Unit<'a> {
    type V = UnitData;

    closed spec fn view(&self) -> UnitData {
        *self.data
    }
}

impl<'a> Unit<'a> {
    /// The id of the unit within its module.
    pub closed spec fn spec_id(&self) -> UnitId {
        self.unit
    }

    /// Create a new unit wrapper around raw unit data.
    pub fn new(unit: UnitId, data: &'a UnitData) -> (u: Self)
        ensures
            u@ == *data,
            u.spec_id() == unit,
    {
        Unit { unit, data }
    }

    /// Create a new unit wrapper around raw unit data that is not part of a
    /// module.
    pub fn new_anonymous(data: &'a UnitData) -> (u: Self)
        ensures
            u@ == *data,
            u.spec_id() == UnitId(u32::MAX),
    {
        Self::new(UnitId::invalid(), data)
    }

    /// Return the unit's id.
    pub fn id(self) -> (id: UnitId)
        ensures
            id == self.spec_id(),
    {
        self.unit
    }

    /// Return the unit's data.
    pub fn data(self) -> (d: &'a UnitData)
        ensures
            *d == self@,
    {
        self.data
    }

    /// Return the kind of this unit.
    pub fn kind(&self) -> (k: UnitKind)
        ensures
            k == self@.spec_kind(),
    {
        self.data.kind
    }

    /// Return the unit's signature.
    pub fn sig(self) -> (s: &'a Signature)
        ensures
            *s == self@.spec_sig(),
    {
        &self.data.sig
    }

    /// Return the unit's name.
    pub fn name(self) -> (n: &'a UnitName)
        ensures
            *n == self@.spec_name(),
    {
        &self.data.name
    }

    /// Check if this unit is a `Function`.
    pub fn is_function(self) -> (b: bool)
        ensures
            b == (self@.spec_kind() == UnitKind::Function),
    {
        self.data.kind == UnitKind::Function
    }

    /// Check if this unit is a `Process`.
    pub fn is_process(self) -> (b: bool)
        ensures
            b == (self@.spec_kind() == UnitKind::Process),
    {
        self.data.kind == UnitKind::Process
    }

    /// Check if this unit is an `Entity`.
    pub fn is_entity(self) -> (b: bool)
        ensures
            b == (self@.spec_kind() == UnitKind::Entity),
    {
        self.data.kind == UnitKind::Entity
    }

    /// The values of a list of the unit's arguments.
    fn values_of(self, args: &Vec<Arg>) -> (v: Vec<Value>)
        requires
            self@.wf(),
            forall|k: int| 0 <= k < args@.len() ==> #[trigger] self@.spec_arg_value(args@[k]) is Some,
        ensures
            v@ == arg_values(self@, args@),
    {
        let mut v: Vec<Value> = Vec::new();
        let mut k: usize = 0;
        while k < args.len()
            invariant
                k <= args@.len(),
                forall|j: int| 0 <= j < args@.len() ==> #[trigger] self@.spec_arg_value(args@[j]) is Some,
                v@ == arg_values(self@, args@.subrange(0, k as int)),
            decreases args@.len() - k,
        {
            assert(self@.spec_arg_value(args@[k as int]) is Some);
            v.push(self.arg_value(args[k]));
            k = k + 1;
            assert(v@ =~= arg_values(self@, args@.subrange(0, k as int)));
        }
        assert(args@.subrange(0, k as int) =~= args@);
        v
    }

    /// Every argument listed by the signature has a value.
    proof fn lemma_listed_args(self, k: int)
        requires
            self@.wf(),
            0 <= k < self@.spec_sig()@.all_args().len(),
        ensures
            self@.spec_arg_value(self@.spec_sig()@.all_args()[k]) is Some,
            (self@.spec_sig()@.all_args()[k].0 as int) < self@.spec_sig()@.args.len(),
    {
        assert(has_value(self.data.args@, self.data.sig@.all_args()[k].0 as int));
        self.data.sig.lemma_all_args_valid(k);
    }

    /// Return the values of the unit's input arguments.
    pub fn input_args(self) -> (v: Vec<Value>)
        requires
            self@.wf(),
        ensures
            v@ == arg_values(self@, self@.spec_sig()@.inp),
    {
        let args = self.data.sig.inputs();
        proof {
            assert forall|k: int| 0 <= k < args@.len() implies #[trigger] self@.spec_arg_value(args@[k]) is Some by {
                self.lemma_listed_args(k);
                assert(self@.spec_sig()@.all_args()[k] == args@[k]);
            }
        }
        self.values_of(&args)
    }

    /// Return the values of the unit's output arguments.
    pub fn output_args(self) -> (v: Vec<Value>)
        requires
            self@.wf(),
        ensures
            v@ == arg_values(self@, self@.spec_sig()@.oup),
    {
        let args = self.data.sig.outputs();
        proof {
            assert forall|k: int| 0 <= k < args@.len() implies #[trigger] self@.spec_arg_value(args@[k]) is Some by {
                let n = self@.spec_sig()@.inp.len();
                self.lemma_listed_args(n + k);
                assert(self@.spec_sig()@.all_args()[n + k] == args@[k]);
            }
        }
        self.values_of(&args)
    }

    /// Return the values of all of the unit's arguments, inputs first.
    pub fn args(self) -> (v: Vec<Value>)
        requires
            self@.wf(),
        ensures
            v@ == arg_values(self@, self@.spec_sig()@.all_args()),
    {
        let args = self.data.sig.args();
        proof {
            assert forall|k: int| 0 <= k < args@.len() implies #[trigger] self@.spec_arg_value(args@[k]) is Some by {
                self.lemma_listed_args(k);
            }
        }
        self.values_of(&args)
    }

    /// Return the value of the input argument at position `pos`.
    pub fn input_arg(self, pos: usize) -> (v: Value)
        requires
            self@.wf(),
            pos < self@.spec_sig()@.inp.len(),
        ensures
            v == self@.spec_arg_value(self@.spec_sig()@.inp[pos as int])->0,
    {
        let args = self.data.sig.inputs();
        proof {
            self.lemma_listed_args(pos as int);
            assert(self@.spec_sig()@.all_args()[pos as int] == args@[pos as int]);
        }
        self.arg_value(args[pos])
    }

    /// Return the value of the output argument at position `pos`.
    pub fn output_arg(self, pos: usize) -> (v: Value)
        requires
            self@.wf(),
            pos < self@.spec_sig()@.oup.len(),
        ensures
            v == self@.spec_arg_value(self@.spec_sig()@.oup[pos as int])->0,
    {
        let args = self.data.sig.outputs();
        proof {
            let n = self@.spec_sig()@.inp.len();
            self.lemma_listed_args(n + pos);
            assert(self@.spec_sig()@.all_args()[n + pos] == args@[pos as int]);
        }
        self.arg_value(args[pos])
    }

    /// Resolve what name an external unit has.
    pub fn extern_name(self, ext: ExtUnit) -> (n: &'a UnitName)
        requires
            (ext.0 as int) < self@.spec_exts().len(),
        ensures
            *n == self@.spec_exts()[ext.0 as int].name,
    {
        &self.data.ext_units[ext.0 as usize].name
    }

    /// Resolve what signature an external unit has.
    pub fn extern_sig(self, ext: ExtUnit) -> (s: &'a Signature)
        requires
            (ext.0 as int) < self@.spec_exts().len(),
        ensures
            *s == self@.spec_exts()[ext.0 as int].sig,
    {
        &self.data.ext_units[ext.0 as usize].sig
    }

    /// The external units used by this unit, in the order they were added.
    pub fn extern_units(self) -> (v: Vec<ExtUnit>)
        requires
            self@.wf(),
        ensures
            v@.len() == self@.spec_exts().len(),
            self@.spec_exts().len() + 1 < u32::MAX,
            forall|k: int| 0 <= k < v@.len() ==> #[trigger] v@[k] == ExtUnit(k as u32),
    {
        let n = self.data.ext_units.len();
        let mut v: Vec<ExtUnit> = Vec::new();
        let mut k: usize = 0;
        while k < n
            invariant
                n == self@.spec_exts().len(),
                n + 1 < u32::MAX,
                k <= n,
                v@.len() == k,
                forall|j: int| 0 <= j < k ==> #[trigger] v@[j] == ExtUnit(j as u32),
            decreases n - k,
        {
            v.push(ExtUnit(k as u32));
            k = k + 1;
        }
        v
    }

    /// Return the name of a BB.
    pub fn get_block_name(self, bb: Block) -> (n: Option<&'a str>)
        requires
            self@.spec_block(bb) is Some,
        ensures
            n is Some == self@.spec_block(bb)->0.name is Some,
            n is Some ==> n->0@ == self@.spec_block(bb)->0.name->0@,
    {
        match &self.data.blocks[bb.0 as usize] {
            Some(data) => match &data.name {
                Some(name) => Some(name.as_str()),
                None => None,
            },
            None => None,
        }
    }

    /// Whether a value exists and is not the invalid value.
    pub(crate) fn is_usable_value(self, value: Value) -> (b: bool)
        ensures
            b == (self@.spec_value(value) is Some && !(self@.spec_value(value)->0 is Invalid)),
    {
        if (value.0 as usize) < self.data.values.len() {
            match &self.data.values[value.0 as usize] {
                Some(ValueData::Invalid) => false,
                Some(_) => true,
                None => false,
            }
        } else {
            false
        }
    }

    /// Whether an instruction exists.
    pub(crate) fn has_inst(self, inst: Inst) -> (b: bool)
        ensures
            b == (self@.spec_inst(inst) is Some),
    {
        (inst.0 as usize) < self.data.insts.len() && self.data.insts[inst.0 as usize].is_some()
    }

    /// Whether a block exists.
    pub(crate) fn has_block(self, bb: Block) -> (b: bool)
        ensures
            b == (self@.spec_block(bb) is Some),
    {
        (bb.0 as usize) < self.data.blocks.len() && self.data.blocks[bb.0 as usize].is_some()
    }

    /// The number of external units imported so far.
    pub(crate) fn extern_count(self) -> (n: usize)
        ensures
            n == self@.spec_exts().len(),
    {
        self.data.ext_units.len()
    }

    /// Check if a value is a placeholder.
    pub fn is_placeholder(self, value: Value) -> (b: bool)
        requires
            self@.spec_value(value) is Some,
        ensures
            b == (self@.spec_value(value)->0 is Placeholder),
    {
        match &self.data.values[value.0 as usize] {
            Some(data) => data.is_placeholder(),
            None => false,
        }
    }

    /// Returns whether an instruction produces a result.
    pub fn has_result(self, inst: Inst) -> (b: bool)
        ensures
            b == (self@.spec_result(inst) is Some),
    {
        self.get_inst_result(inst).is_some()
    }

    /// Returns the result of an instruction.
    pub fn inst_result(self, inst: Inst) -> (v: Value)
        requires
            self@.spec_result(inst) is Some,
        ensures
            v == self@.spec_result(inst)->0,
    {
        self.get_inst_result(inst).unwrap()
    }

    /// Returns the result of an instruction.
    pub fn get_inst_result(self, inst: Inst) -> (v: Option<Value>)
        ensures
            v == self@.spec_result(inst),
    {
        if (inst.0 as usize) < self.data.results.len() {
            self.data.results[inst.0 as usize]
        } else {
            None
        }
    }

    /// Returns the value of an argument.
    pub fn arg_value(self, arg: Arg) -> (v: Value)
        requires
            self@.spec_arg_value(arg) is Some,
        ensures
            v == self@.spec_arg_value(arg)->0,
    {
        self.data.args[arg.0 as usize].unwrap()
    }

    /// Returns the type of a value.
    pub fn value_type(self, value: Value) -> (t: Type)
        requires
            self@.spec_value(value) is Some,
            !(self@.spec_value(value)->0 is Invalid),
        ensures
            t == value_data_ty(self@.spec_value(value)->0),
    {
        match &self.data.values[value.0 as usize] {
            Some(ValueData::Inst { ty, .. }) => ty.duplicate(),
            Some(ValueData::Arg { ty, .. }) => ty.duplicate(),
            Some(ValueData::Placeholder { ty }) => ty.duplicate(),
            _ => void_ty(),
        }
    }

    /// Returns the type of an instruction.
    ///
    /// An instruction without result has the void type.
    pub fn inst_type(self, inst: Inst) -> (t: Type)
        requires
            self@.wf(),
        ensures
            self@.spec_result(inst) is Some ==> t == value_data_ty(
                self@.spec_value(self@.spec_result(inst)->0)->0,
            ),
            self@.spec_result(inst) is None ==> t == void_ty_spec(),
    {
        match self.get_inst_result(inst) {
            Some(v) => {
                proof {
                    assert(has_value(self.data.results@, inst.0 as int));
                }
                self.value_type(v)
            },
            None => void_ty(),
        }
    }

    /// Return the argument that produces `value`.
    pub fn get_value_arg(self, value: Value) -> (r: Option<Arg>)
        requires
            self@.spec_value(value) is Some,
        ensures
            r == (match self@.spec_value(value)->0 {
                ValueData::Arg { arg, .. } => Some(arg),
                _ => None,
            }),
    {
        match &self.data.values[value.0 as usize] {
            Some(ValueData::Arg { arg, .. }) => Some(*arg),
            _ => None,
        }
    }

    /// Return the argument that produces `value`.
    pub fn value_arg(self, value: Value) -> (a: Arg)
        requires
            self@.spec_value(value) is Some,
            self@.spec_value(value)->0 is Arg,
        ensures
            a == self@.spec_value(value)->0->Arg_arg,
    {
        self.get_value_arg(value).unwrap()
    }

    /// Return the instruction that produces `value`.
    pub fn get_value_inst(self, value: Value) -> (r: Option<Inst>)
        requires
            self@.spec_value(value) is Some,
        ensures
            r == (match self@.spec_value(value)->0 {
                ValueData::Inst { inst, .. } => Some(inst),
                _ => None,
            }),
    {
        match &self.data.values[value.0 as usize] {
            Some(ValueData::Inst { inst, .. }) => Some(*inst),
            _ => None,
        }
    }

    /// Return the instruction that produces `value`.
    pub fn value_inst(self, value: Value) -> (i: Inst)
        requires
            self@.spec_value(value) is Some,
            self@.spec_value(value)->0 is Inst,
        ensures
            i == self@.spec_value(value)->0->Inst_inst,
    {
        self.get_value_inst(value).unwrap()
    }

    /// Return the name of a value.
    pub fn get_name(self, value: Value) -> (n: Option<&'a str>)
        ensures
            n is Some == self@.spec_value_name(value) is Some,
            n is Some ==> n->0@ == self@.spec_value_name(value)->0@,
    {
        if (value.0 as usize) < self.data.value_names.len() {
            match &self.data.value_names[value.0 as usize] {
                Some(name) => Some(name.as_str()),
                None => None,
            }
        } else {
            None
        }
    }

    /// Return the instructions that read `value`, in ascending order.
    pub fn uses(self, value: Value) -> (r: Vec<Inst>)
        requires
            self@.wf(),
        ensures
            forall|i: Inst| #[trigger] r@.contains(i) <==> self@.reads_value(i, value),
            forall|a: int, b: int| 0 <= a < b < r@.len() ==> r@[a].0 < r@[b].0,
    {
        let mut r: Vec<Inst> = Vec::new();
        let mut k: usize = 0;
        while k < self.data.insts.len()
            invariant
                k <= self.data.insts@.len(),
                self.data.insts@.len() < u32::MAX,
                forall|i: Inst| #[trigger] r@.contains(i) <==> ((i.0 as int) < k && self@.reads_value(i, value)),
                forall|a: int, b: int| 0 <= a < b < r@.len() ==> r@[a].0 < r@[b].0,
                forall|a: int| 0 <= a < r@.len() ==> (r@[a].0 as int) < k,
            decreases self.data.insts@.len() - k,
        {
            let ghost before = r@;
            if let Some(data) = &self.data.insts[k] {
                if inst_reads(data, value) {
                    r.push(Inst(k as u32));
                    proof {
                        assert forall|i: Inst| #[trigger] r@.contains(i) <==> ((i.0 as int) < k + 1 && self@.reads_value(i, value)) by {
                            if i.0 as int == k {
                                assert(r@[r@.len() - 1] == i);
                            } else if r@.contains(i) {
                                let j = choose|j: int| 0 <= j < r@.len() && r@[j] == i;
                                assert(j < before.len());
                                assert(before.contains(i));
                            } else if (i.0 as int) < k && self@.reads_value(i, value) {
                                assert(before.contains(i));
                                let j = choose|j: int| 0 <= j < before.len() && before[j] == i;
                                assert(r@[j] == i);
                            }
                        }
                    }
                } else {
                    proof {
                        assert forall|i: Inst| #[trigger] r@.contains(i) <==> ((i.0 as int) < k + 1 && self@.reads_value(i, value)) by {
                            if i.0 as int == k {
                                assert(self@.spec_inst(i) == Some(*data));
                            }
                        }
                    }
                }
            } else {
                proof {
                    assert forall|i: Inst| #[trigger] r@.contains(i) <==> ((i.0 as int) < k + 1 && self@.reads_value(i, value)) by {
                        if i.0 as int == k {
                            assert(self@.spec_inst(i) is None);
                        }
                    }
                }
            }
            k = k + 1;
        }
        proof {
            assert forall|i: Inst| #[trigger] r@.contains(i) <==> self@.reads_value(i, value) by {
                if self@.reads_value(i, value) {
                    assert((i.0 as int) < k);
                }
            }
        }
        r
    }

    /// Check if a value is used.
    pub fn has_uses(self, value: Value) -> (b: bool)
        requires
            self@.wf(),
        ensures
            b == (exists|i: Inst| self@.reads_value(i, value)),
    {
        let uses = self.uses(value);
        proof {
            if exists|i: Inst| self@.reads_value(i, value) {
                let i = choose|i: Inst| self@.reads_value(i, value);
                assert(uses@.contains(i));
            }
            if uses@.len() > 0 {
                assert(uses@.contains(uses@[0]));
            }
        }
        uses.len() > 0
    }

    /// Check if a value is used by exactly one instruction.
    pub fn has_one_use(self, value: Value) -> (b: bool)
        requires
            self@.wf(),
        ensures
            b == (exists|i: Inst| #[trigger] self@.reads_value(i, value) && forall|j: Inst| #[trigger] self@.reads_value(j, value) ==> j == i),
    {
        let uses = self.uses(value);
        proof {
            if uses@.len() == 1 {
                let i = uses@[0];
                assert(uses@.contains(i));
                assert forall|j: Inst| #[trigger] self@.reads_value(j, value) implies j == i by {
                    assert(uses@.contains(j));
                }
            }
            if exists|i: Inst| #[trigger] self@.reads_value(i, value) && forall|j: Inst| #[trigger] self@.reads_value(j, value) ==> j == i {
                let i = choose|i: Inst| #[trigger] self@.reads_value(i, value) && forall|j: Inst| #[trigger] self@.reads_value(j, value) ==> j == i;
                assert(uses@.contains(i));
                if uses@.len() > 1 {
                    assert(uses@.contains(uses@[0]));
                    assert(uses@.contains(uses@[1]));
                    assert(uses@[0].0 < uses@[1].0);
                }
            }
        }
        uses.len() == 1
    }

    /// Returns the integer constant that produces `value`, if any.
    pub fn get_const_int(self, value: Value) -> (r: Option<&'a IntValue>)
        requires
            self@.spec_value(value) is Some,
        ensures
            r is Some <==> (self@.spec_value(value)->0 is Inst && self@.spec_inst(
                self@.spec_value(value)->0->Inst_inst,
            ) matches Some(InstData::ConstInt { .. })),
            r is Some ==> (self@.spec_inst(self@.spec_value(value)->0->Inst_inst) matches Some(
                InstData::ConstInt { imm, .. },
            ) && *r->0 == imm),
    {
        match self.get_value_inst(value) {
            Some(inst) => {
                if (inst.0 as usize) < self.data.insts.len() {
                    match &self.data.insts[inst.0 as usize] {
                        Some(InstData::ConstInt { imm, .. }) => Some(imm),
                        _ => None,
                    }
                } else {
                    None
                }
            },
            None => None,
        }
    }

    /// Returns the time constant that produces `value`, if any.
    pub fn get_const_time(self, value: Value) -> (r: Option<&'a TimeValue>)
        requires
            self@.spec_value(value) is Some,
        ensures
            r is Some <==> (self@.spec_value(value)->0 is Inst && self@.spec_inst(
                self@.spec_value(value)->0->Inst_inst,
            ) matches Some(InstData::ConstTime { .. })),
            r is Some ==> (self@.spec_inst(self@.spec_value(value)->0->Inst_inst) matches Some(
                InstData::ConstTime { imm, .. },
            ) && *r->0 == imm),
    {
        match self.get_value_inst(value) {
            Some(inst) => {
                if (inst.0 as usize) < self.data.insts.len() {
                    match &self.data.insts[inst.0 as usize] {
                        Some(InstData::ConstTime { imm, .. }) => Some(imm),
                        _ => None,
                    }
                } else {
                    None
                }
            },
            None => None,
        }
    }

    /// Get the block ID bound.
    ///
    /// This function is useful for creating dense vectors to associate data
    /// with blocks.
    pub fn block_id_bound(self) -> (n: usize)
        ensures
            n == self@.block_bound(),
    {
        self.data.blocks.len()
    }

    /// Get the value ID bound.
    pub(crate) fn value_id_bound(self) -> (n: usize)
        ensures
            n == self@.value_bound(),
    {
        self.data.values.len()
    }

    /// Return the data of an instruction.
    pub fn inst_data(self, inst: Inst) -> (d: &'a InstData)
        requires
            self@.spec_inst(inst) is Some,
        ensures
            *d == self@.spec_inst(inst)->0,
    {
        self.data.insts[inst.0 as usize].as_ref().unwrap()
    }
}

/// # Basic Block Layout
impl<'a> Unit<'a> {
    /// Return all BBs in layout order.
    pub fn blocks(self) -> (v: Vec<Block>)
        requires
            self@.wf(),
        ensures
            v@ == as_blocks(self@.block_ids()),
    {
        self.data.layout.blocks()
    }

    /// Check if a block is inserted into the layout.
    pub fn is_block_inserted(self, bb: Block) -> (b: bool)
        requires
            self@.wf(),
        ensures
            b == self@.block_ids().contains(bb.0),
    {
        self.data.layout.is_block_inserted(bb)
    }

    /// Return the first BB in the layout.
    pub fn first_block(self) -> (r: Option<Block>)
        requires
            self@.wf(),
        ensures
            r == opt_block(first_of(self@.block_ids())),
    {
        self.data.layout.first_block()
    }

    /// Return the last BB in the layout.
    pub fn last_block(self) -> (r: Option<Block>)
        requires
            self@.wf(),
        ensures
            r == opt_block(last_of(self@.block_ids())),
    {
        self.data.layout.last_block()
    }

    /// Return the BB preceding `bb` in the layout.
    pub fn prev_block(self, bb: Block) -> (r: Option<Block>)
        requires
            self@.wf(),
            self@.block_ids().contains(bb.0),
        ensures
            r == opt_block(prev_in(self@.block_ids(), self@.block_ids().index_of(bb.0))),
    {
        self.data.layout.prev_block(bb)
    }

    /// Return the BB following `bb` in the layout.
    pub fn next_block(self, bb: Block) -> (r: Option<Block>)
        requires
            self@.wf(),
            self@.block_ids().contains(bb.0),
        ensures
            r == opt_block(next_in(self@.block_ids(), self@.block_ids().index_of(bb.0))),
    {
        self.data.layout.next_block(bb)
    }

    /// Get the entry block in the layout.
    ///
    /// The fallible alternative is `first_block()`.
    pub fn entry(self) -> (bb: Block)
        requires
            self@.wf(),
            self@.block_ids().len() > 0,
        ensures
            bb.0 == self@.block_ids()[0],
    {
        self.first_block().unwrap()
    }
}

/// # Instruction Layout
impl<'a> Unit<'a> {
    /// Get the BB which contains `inst`, or `None` if `inst` is not inserted.
    pub fn inst_block(self, inst: Inst) -> (r: Option<Block>)
        requires
            self@.wf(),
        ensures
            r == self@.inst_home(inst),
    {
        self.data.layout.inst_block(inst)
    }

    /// Return all instructions in a block in layout order.
    pub fn insts(self, bb: Block) -> (v: Vec<Inst>)
        requires
            self@.wf(),
            self@.block_ids().contains(bb.0),
        ensures
            v@ == as_insts(self@.inst_ids(bb)),
    {
        self.data.layout.insts(bb)
    }

    /// Return all instructions in layout order.
    pub fn all_insts(self) -> (v: Vec<Inst>)
        requires
            self@.wf(),
        ensures
            v@ == self@.all_inst_seq(),
    {
        let bbs = self.blocks();
        let mut v: Vec<Inst> = Vec::new();
        let mut k: usize = 0;
        while k < bbs.len()
            invariant
                self@.wf(),
                k <= bbs@.len(),
                bbs@ == as_blocks(self@.block_ids()),
                v@ == insts_of_blocks(self@, self@.block_ids().subrange(0, k as int)),
            decreases bbs@.len() - k,
        {
            let bb = bbs[k];
            proof {
                assert(self@.block_ids().contains(bb.0)) by {
                    assert(self@.block_ids()[k as int] == bb.0);
                }
            }
            let mut insts = self.insts(bb);
            v.append(&mut insts);
            proof {
                let s = self@.block_ids().subrange(0, k as int + 1);
                assert(s.drop_last() =~= self@.block_ids().subrange(0, k as int));
                assert(s.last() == bb.0);
            }
            k = k + 1;
        }
        assert(self@.block_ids().subrange(0, k as int) =~= self@.block_ids());
        v
    }

    /// Check if an instruction is inserted into the layout.
    pub fn is_inst_inserted(self, inst: Inst) -> (b: bool)
        requires
            self@.wf(),
        ensures
            b == (self@.inst_home(inst) is Some),
    {
        self.data.layout.is_inst_inserted(inst)
    }

    /// Get the first instruction in a BB.
    pub fn first_inst(self, bb: Block) -> (r: Option<Inst>)
        requires
            self@.wf(),
            self@.block_ids().contains(bb.0),
        ensures
            r == opt_inst(first_of(self@.inst_ids(bb))),
    {
        self.data.layout.first_inst(bb)
    }

    /// Get the last instruction in a BB.
    pub fn last_inst(self, bb: Block) -> (r: Option<Inst>)
        requires
            self@.wf(),
            self@.block_ids().contains(bb.0),
        ensures
            r == opt_inst(last_of(self@.inst_ids(bb))),
    {
        self.data.layout.last_inst(bb)
    }

    /// Get the instruction preceding `inst` in the layout.
    pub fn prev_inst(self, inst: Inst) -> (r: Option<Inst>)
        requires
            self@.wf(),
            self@.inst_placed(inst),
        ensures
            r == opt_inst(prev_in(
                self@.inst_ids(self@.inst_home(inst)->0),
                self@.inst_ids(self@.inst_home(inst)->0).index_of(inst.0),
            )),
    {
        self.data.layout.prev_inst(inst)
    }

    /// Get the instruction following `inst` in the layout.
    pub fn next_inst(self, inst: Inst) -> (r: Option<Inst>)
        requires
            self@.wf(),
            self@.inst_placed(inst),
        ensures
            r == opt_inst(next_in(
                self@.inst_ids(self@.inst_home(inst)->0),
                self@.inst_ids(self@.inst_home(inst)->0).index_of(inst.0),
            )),
    {
        self.data.layout.next_inst(inst)
    }

    /// Get the terminator instruction of a BB.
    ///
    /// The fallible alternative is `last_inst(bb)`.
    pub fn terminator(self, bb: Block) -> (term: Inst)
        requires
            self@.wf(),
            self@.block_ids().contains(bb.0),
            self@.inst_ids(bb).len() > 0,
        ensures
            term.0 == self@.inst_ids(bb).last(),
    {
        self.last_inst(bb).unwrap()
    }
}

/// The instructions of a list of blocks, block after block.
pub open spec fn insts_of_blocks(d: UnitData, bbs: Seq<u32>) -> Seq<Inst>
    decreases bbs.len(),
{
    if bbs.len() == 0 {
        Seq::empty()
    } else {
        insts_of_blocks(d, bbs.drop_last()) + as_insts(d.inst_ids(Block(bbs.last())))
    }
}

impl UnitData {
    /// All placed instructions, block after block in layout order.
    pub open spec fn all_inst_seq(self) -> Seq<Inst> {
        insts_of_blocks(self, self.block_ids())
    }
}


impl UnitData {
    /// Only the layout changed, it still names existing blocks and
    /// instructions only, and fresh instruction ids stay unplaced.
    proof fn lemma_relayout(self, prev: UnitData, bb: Option<u32>, inst: Option<u32>)
        requires
            prev.wf(),
            self.layout.wf(),
            self.kind == prev.kind,
            self.name == prev.name,
            self.sig == prev.sig,
            self.insts == prev.insts,
            self.results == prev.results,
            self.values == prev.values,
            self.value_names == prev.value_names,
            self.args == prev.args,
            self.ext_units == prev.ext_units,
            self.blocks == prev.blocks,
            bb is Some ==> entry_at(prev.blocks@, bb->0 as int) is Some,
            inst is Some ==> entry_at(prev.insts@, inst->0 as int) is Some,
            forall|b: u32| #[trigger] self.layout.block_seq().contains(b) ==> prev.layout.block_seq().contains(b)
                || bb == Some(b),
            forall|b: u32, i: u32|
                self.layout.block_seq().contains(b) && #[trigger] self.layout.inst_seq(b).contains(i) ==> (
                prev.layout.block_seq().contains(b) && prev.layout.inst_seq(b).contains(i)) || inst == Some(i),
            forall|i: u32| #[trigger] self.layout.inst_home(i) == prev.layout.inst_home(i) || inst == Some(i),
        ensures
            self.wf(),
    {
        assert forall|i: u32| (i as int) >= self.insts@.len() implies #[trigger] self.layout.inst_home(i) is None by {
            assert(prev.layout.inst_home(i) is None);
            if inst == Some(i) {
                assert(entry_at(prev.insts@, i as int) is Some);
            }
        }
        assert forall|b: u32, i: u32|
            self.layout.block_seq().contains(b) && #[trigger] self.layout.inst_seq(b).contains(i) implies entry_at(
            self.insts@,
            i as int,
        ) is Some by {
            if inst != Some(i) {
                assert(prev.layout.block_seq().contains(b) && prev.layout.inst_seq(b).contains(i));
            }
        }
        assert forall|b: u32| #[trigger] self.layout.block_seq().contains(b) implies entry_at(
            self.blocks@,
            b as int,
        ) is Some by {
            if bb != Some(b) {
                assert(prev.layout.block_seq().contains(b));
            }
        }
        assert forall|i: int| #[trigger] has_value(self.results@, i) implies {
            &&& ((self.results@[i]->0).0 as int) < self.values@.len()
            &&& is_result_of(self.values@[(self.results@[i]->0).0 as int], Inst(i as u32))
        } by {
            assert(has_value(prev.results@, i));
        }
        assert forall|a: int| #[trigger] has_value(self.args@, a) implies {
            &&& ((self.args@[a]->0).0 as int) < self.values@.len()
            &&& is_arg_value(self.values@[(self.args@[a]->0).0 as int], Arg(a as u32))
        } by {
            assert(has_value(prev.args@, a));
        }
        assert forall|k: int| 0 <= k < self.sig@.all_args().len() implies #[trigger] has_value(
            self.args@,
            self.sig@.all_args()[k].0 as int,
        ) by {
            assert(has_value(prev.args@, prev.sig@.all_args()[k].0 as int));
        }
    }
}

/// Where the builder of a unit puts the next instruction.
#[derive(Clone, Copy, PartialEq, Eq, Structural, Debug)]
pub enum InsertPos {
    /// No position has been chosen yet.
    Nowhere,
    /// At the end of a block.
    Append(Block),
    /// At the beginning of a block.
    Prepend(Block),
    /// Right after an instruction.
    After(Inst),
    /// Right before an instruction.
    Before(Inst),
}

/// A builder for a function, process, or entity.
///
/// The builder owns the unit's data while it is being built; `finish` hands
/// it back.
pub struct UnitBuilder {
    unit: UnitId,
    data: UnitData,
    pos: InsertPos,
}

impl View for UnitBuilder {
    type V = UnitData;

    closed spec fn view(&self) -> UnitData {
        self.data
    }
}

impl UnitBuilder {
    /// The position at which the next instruction is inserted.
    pub closed spec fn spec_pos(&self) -> InsertPos {
        self.pos
    }

    /// The id of the unit being built.
    pub closed spec fn spec_id(&self) -> UnitId {
        self.unit
    }

    /// The insertion position names a place in the layout.
    pub open spec fn pos_valid(&self) -> bool {
        match self.spec_pos() {
            InsertPos::Nowhere => false,
            InsertPos::Append(bb) => self@.block_ids().contains(bb.0),
            InsertPos::Prepend(bb) => self@.block_ids().contains(bb.0),
            InsertPos::After(i) => self@.inst_placed(i),
            InsertPos::Before(i) => self@.inst_placed(i),
        }
    }

    /// Create a new builder for a unit.
    ///
    /// A builder for an entity starts out inserting before the terminator of
    /// the first block, if there is one.
    pub fn new(unit: UnitId, data: UnitData) -> (b: Self)
        requires
            data.wf(),
            data.spec_kind() == UnitKind::Entity && data.block_ids().len() > 0 ==> data.inst_ids(
                Block(data.block_ids()[0]),
            ).len() > 0,
        ensures
            b@ == data,
            b.spec_id() == unit,
            b.spec_pos() == (if data.spec_kind() == UnitKind::Entity && data.block_ids().len() > 0 {
                InsertPos::Before(Inst(data.inst_ids(Block(data.block_ids()[0])).last()))
            } else {
                InsertPos::Nowhere
            }),
    {
        let pos = if data.kind == UnitKind::Entity {
            let u = Unit::new(unit, &data);
            match u.first_block() {
                Some(bb) => {
                    proof {
                        assert(data.block_ids().contains(bb.0)) by {
                            assert(data.block_ids()[0] == bb.0);
                        }
                    }
                    InsertPos::Before(u.terminator(bb))
                },
                None => InsertPos::Nowhere,
            }
        } else {
            InsertPos::Nowhere
        };
        UnitBuilder { unit, data, pos }
    }

    /// Create a new builder for a unit that has not yet been added to a
    /// module.
    pub fn new_anonymous(data: UnitData) -> (b: Self)
        requires
            data.wf(),
            data.spec_kind() == UnitKind::Entity && data.block_ids().len() > 0 ==> data.inst_ids(
                Block(data.block_ids()[0]),
            ).len() > 0,
        ensures
            b@ == data,
            b.spec_id() == UnitId(u32::MAX),
            b.spec_pos() == (if data.spec_kind() == UnitKind::Entity && data.block_ids().len() > 0 {
                InsertPos::Before(Inst(data.inst_ids(Block(data.block_ids()[0])).last()))
            } else {
                InsertPos::Nowhere
            }),
    {
        Self::new(UnitId::invalid(), data)
    }

    /// Finish building and hand back the unit's data.
    pub fn finish(self) -> (d: UnitData)
        ensures
            d == self@,
    {
        self.data
    }

    /// Return the unit being built.
    pub fn unit(&self) -> (u: Unit<'_>)
        ensures
            u@ == self@,
            u.spec_id() == self.spec_id(),
    {
        Unit::new(self.unit, &self.data)
    }

    /// Append all following instructions to the end of `bb`.
    pub fn append_to(&mut self, bb: Block)
        ensures
            final(self)@ == old(self)@,
            final(self).spec_id() == old(self).spec_id(),
            final(self).spec_pos() == InsertPos::Append(bb),
    {
        self.pos = InsertPos::Append(bb);
    }

    /// Prepend all following instructions to the beginning of `bb`.
    pub fn prepend_to(&mut self, bb: Block)
        ensures
            final(self)@ == old(self)@,
            final(self).spec_id() == old(self).spec_id(),
            final(self).spec_pos() == InsertPos::Prepend(bb),
    {
        self.pos = InsertPos::Prepend(bb);
    }

    /// Insert all following instructions after `inst`.
    pub fn insert_after(&mut self, inst: Inst)
        ensures
            final(self)@ == old(self)@,
            final(self).spec_id() == old(self).spec_id(),
            final(self).spec_pos() == InsertPos::After(inst),
    {
        self.pos = InsertPos::After(inst);
    }

    /// Insert all following instructions before `inst`.
    pub fn insert_before(&mut self, inst: Inst)
        ensures
            final(self)@ == old(self)@,
            final(self).spec_id() == old(self).spec_id(),
            final(self).spec_pos() == InsertPos::Before(inst),
    {
        self.pos = InsertPos::Before(inst);
    }

    /// Append all following instructions at the end of the unit's entry
    /// block.
    pub fn insert_at_end(&mut self)
        requires
            old(self)@.wf(),
            old(self)@.block_ids().len() > 0,
        ensures
            final(self)@ == old(self)@,
            final(self).spec_id() == old(self).spec_id(),
            final(self).spec_pos() == InsertPos::Append(Block(old(self)@.block_ids()[0])),
    {
        let bb = self.unit().entry();
        self.pos = InsertPos::Append(bb);
    }

    /// Prepend all following instructions at the beginning of the unit's
    /// entry block.
    pub fn insert_at_beginning(&mut self)
        requires
            old(self)@.wf(),
            old(self)@.block_ids().len() > 0,
        ensures
            final(self)@ == old(self)@,
            final(self).spec_id() == old(self).spec_id(),
            final(self).spec_pos() == InsertPos::Prepend(Block(old(self)@.block_ids()[0])),
    {
        let bb = self.unit().entry();
        self.pos = InsertPos::Prepend(bb);
    }
}

/// # Basic block layout
impl UnitBuilder {
    /// Append a BB to the end of the layout.
    pub fn append_block(&mut self, bb: Block)
        requires
            old(self)@.wf(),
            old(self)@.spec_block(bb) is Some,
            !old(self)@.block_ids().contains(bb.0),
        ensures
            final(self)@.wf(),
            final(self)@.block_ids() == old(self)@.block_ids().push(bb.0),
            final(self)@.inst_ids(bb) == Seq::<u32>::empty(),
            forall|b: Block| b != bb ==> #[trigger] final(self)@.inst_ids(b) == old(self)@.inst_ids(b),
            forall|i: Inst| #[trigger] final(self)@.inst_home(i) == old(self)@.inst_home(i),
            final(self)@.same_dfg(old(self)@),
            final(self)@.same_cfg(old(self)@),
            final(self).spec_pos() == old(self).spec_pos(),
            final(self).spec_id() == old(self).spec_id(),
    {
        let ghost prev = self.data;
        self.data.layout.append_block(bb);
        proof {
            lemma_insert_contains(prev.layout.block_seq(), prev.layout.block_seq().len() as int, bb.0);
            assert(prev.layout.block_seq().push(bb.0) == prev.layout.block_seq().insert(prev.layout.block_seq().len() as int, bb.0));
            self.data.lemma_relayout(prev, Some(bb.0), None);
            assert forall|b: Block| b != bb implies #[trigger] self@.inst_ids(b) == prev.inst_ids(b) by {
                assert(b.0 != bb.0);
            }
        }
    }

    /// Prepend a BB to the beginning of the layout.
    pub fn prepend_block(&mut self, bb: Block)
        requires
            old(self)@.wf(),
            old(self)@.spec_block(bb) is Some,
            !old(self)@.block_ids().contains(bb.0),
        ensures
            final(self)@.wf(),
            final(self)@.block_ids() == seq![bb.0] + old(self)@.block_ids(),
            final(self)@.inst_ids(bb) == Seq::<u32>::empty(),
            forall|b: Block| b != bb ==> #[trigger] final(self)@.inst_ids(b) == old(self)@.inst_ids(b),
            forall|i: Inst| #[trigger] final(self)@.inst_home(i) == old(self)@.inst_home(i),
            final(self)@.same_dfg(old(self)@),
            final(self)@.same_cfg(old(self)@),
            final(self).spec_pos() == old(self).spec_pos(),
            final(self).spec_id() == old(self).spec_id(),
    {
        let ghost prev = self.data;
        self.data.layout.prepend_block(bb);
        proof {
            lemma_insert_contains(prev.layout.block_seq(), 0, bb.0);
            assert(seq![bb.0] + prev.layout.block_seq() == prev.layout.block_seq().insert(0, bb.0));
            self.data.lemma_relayout(prev, Some(bb.0), None);
            assert forall|b: Block| b != bb implies #[trigger] self@.inst_ids(b) == prev.inst_ids(b) by {
                assert(b.0 != bb.0);
            }
        }
    }

    /// Insert a BB after another BB in the layout.
    pub fn insert_block_after(&mut self, bb: Block, after: Block)
        requires
            old(self)@.wf(),
            old(self)@.spec_block(bb) is Some,
            !old(self)@.block_ids().contains(bb.0),
            old(self)@.block_ids().contains(after.0),
        ensures
            final(self)@.wf(),
            final(self)@.block_ids() == old(self)@.block_ids().insert(
                old(self)@.block_ids().index_of(after.0) + 1,
                bb.0,
            ),
            final(self)@.inst_ids(bb) == Seq::<u32>::empty(),
            forall|b: Block| b != bb ==> #[trigger] final(self)@.inst_ids(b) == old(self)@.inst_ids(b),
            forall|i: Inst| #[trigger] final(self)@.inst_home(i) == old(self)@.inst_home(i),
            final(self)@.same_dfg(old(self)@),
            final(self)@.same_cfg(old(self)@),
            final(self).spec_pos() == old(self).spec_pos(),
            final(self).spec_id() == old(self).spec_id(),
    {
        let ghost prev = self.data;
        self.data.layout.insert_block_after(bb, after);
        proof {
            lemma_insert_contains(prev.layout.block_seq(), prev.layout.block_seq().index_of(after.0) + 1, bb.0);
            self.data.lemma_relayout(prev, Some(bb.0), None);
            assert forall|b: Block| b != bb implies #[trigger] self@.inst_ids(b) == prev.inst_ids(b) by {
                assert(b.0 != bb.0);
            }
        }
    }

    /// Insert a BB before another BB in the layout.
    pub fn insert_block_before(&mut self, bb: Block, before: Block)
        requires
            old(self)@.wf(),
            old(self)@.spec_block(bb) is Some,
            !old(self)@.block_ids().contains(bb.0),
            old(self)@.block_ids().contains(before.0),
        ensures
            final(self)@.wf(),
            final(self)@.block_ids() == old(self)@.block_ids().insert(
                old(self)@.block_ids().index_of(before.0),
                bb.0,
            ),
            final(self)@.inst_ids(bb) == Seq::<u32>::empty(),
            forall|b: Block| b != bb ==> #[trigger] final(self)@.inst_ids(b) == old(self)@.inst_ids(b),
            forall|i: Inst| #[trigger] final(self)@.inst_home(i) == old(self)@.inst_home(i),
            final(self)@.same_dfg(old(self)@),
            final(self)@.same_cfg(old(self)@),
            final(self).spec_pos() == old(self).spec_pos(),
            final(self).spec_id() == old(self).spec_id(),
    {
        let ghost prev = self.data;
        self.data.layout.insert_block_before(bb, before);
        proof {
            lemma_insert_contains(prev.layout.block_seq(), prev.layout.block_seq().index_of(before.0), bb.0);
            self.data.lemma_relayout(prev, Some(bb.0), None);
            assert forall|b: Block| b != bb implies #[trigger] self@.inst_ids(b) == prev.inst_ids(b) by {
                assert(b.0 != bb.0);
            }
        }
    }

    /// Remove a BB from the layout.
    ///
    /// Its instructions stay in its order and keep pointing at it.
    pub fn remove_block(&mut self, bb: Block)
        requires
            old(self)@.wf(),
            old(self)@.block_ids().contains(bb.0),
        ensures
            final(self)@.wf(),
            final(self)@.block_ids() == old(self)@.block_ids().remove(old(self)@.block_ids().index_of(bb.0)),
            forall|b: Block| #[trigger] final(self)@.inst_ids(b) == old(self)@.inst_ids(b),
            forall|i: Inst| #[trigger] final(self)@.inst_home(i) == old(self)@.inst_home(i),
            final(self)@.same_dfg(old(self)@),
            final(self)@.same_cfg(old(self)@),
            final(self).spec_pos() == old(self).spec_pos(),
            final(self).spec_id() == old(self).spec_id(),
    {
        let ghost prev = self.data;
        self.data.layout.remove_block(bb);
        proof {
            let s0 = prev.layout.block_seq();
            let k = s0.index_of(bb.0);
            assert forall|b: u32| #[trigger] self.data.layout.block_seq().contains(b) implies s0.contains(b) by {
                let j = choose|j: int| 0 <= j < self.data.layout.block_seq().len() && self.data.layout.block_seq()[j] == b;
                if j < k {
                    assert(s0[j] == b);
                } else {
                    assert(s0[j + 1] == b);
                }
            }
            self.data.lemma_relayout(prev, None, None);
        }
    }

    /// Exchange the positions of two BBs in the layout.
    pub fn swap_blocks(&mut self, bb0: Block, bb1: Block)
        requires
            old(self)@.wf(),
            old(self)@.block_ids().contains(bb0.0),
            old(self)@.block_ids().contains(bb1.0),
        ensures
            final(self)@.wf(),
            final(self)@.block_ids() == old(self)@.block_ids().update(
                old(self)@.block_ids().index_of(bb0.0),
                bb1.0,
            ).update(old(self)@.block_ids().index_of(bb1.0), bb0.0),
            forall|b: Block| #[trigger] final(self)@.inst_ids(b) == old(self)@.inst_ids(b),
            forall|i: Inst| #[trigger] final(self)@.inst_home(i) == old(self)@.inst_home(i),
            final(self)@.same_dfg(old(self)@),
            final(self)@.same_cfg(old(self)@),
            final(self).spec_pos() == old(self).spec_pos(),
            final(self).spec_id() == old(self).spec_id(),
    {
        let ghost prev = self.data;
        self.data.layout.swap_blocks(bb0, bb1);
        proof {
            let s0 = prev.layout.block_seq();
            let s = self.data.layout.block_seq();
            assert forall|b: u32| #[trigger] s.contains(b) implies s0.contains(b) by {
                let j = choose|j: int| 0 <= j < s.len() && s[j] == b;
                let k0 = s0.index_of(bb0.0);
                let k1 = s0.index_of(bb1.0);
                if j != k0 && j != k1 {
                    assert(s0[j] == b);
                }
            }
            self.data.lemma_relayout(prev, None, None);
        }
    }
}


/// # Instruction layout
impl UnitBuilder {
    /// Append an instruction to the end of a BB.
    pub fn append_inst(&mut self, inst: Inst, bb: Block)
        requires
            old(self)@.wf(),
            old(self)@.spec_inst(inst) is Some,
            old(self)@.inst_home(inst) is None,
            old(self)@.block_ids().contains(bb.0),
        ensures
            final(self)@.wf(),
            final(self)@.block_ids() == old(self)@.block_ids(),
            final(self)@.inst_ids(bb) == old(self)@.inst_ids(bb).push(inst.0),
            forall|b: Block| b != bb ==> #[trigger] final(self)@.inst_ids(b) == old(self)@.inst_ids(b),
            final(self)@.inst_home(inst) == Some(bb),
            forall|i: Inst| i != inst ==> #[trigger] final(self)@.inst_home(i) == old(self)@.inst_home(i),
            final(self)@.same_dfg(old(self)@),
            final(self)@.same_cfg(old(self)@),
            same_hints(final(self)@, old(self)@),
            final(self).spec_pos() == old(self).spec_pos(),
            final(self).spec_id() == old(self).spec_id(),
    {
        let ghost prev = self.data;
        self.data.layout.append_inst(inst, bb);
        proof {
            let s0 = prev.layout.inst_seq(bb.0);
            lemma_insert_contains(s0, s0.len() as int, inst.0);
            assert(s0.push(inst.0) == s0.insert(s0.len() as int, inst.0));
            self.data.lemma_relayout(prev, None, Some(inst.0));
            assert forall|b: Block| b != bb implies #[trigger] self@.inst_ids(b) == prev.inst_ids(b) by {
                assert(b.0 != bb.0);
            }
            assert forall|i: Inst| i != inst implies #[trigger] self@.inst_home(i) == prev.inst_home(i) by {
                assert(i.0 != inst.0);
            }
        }
    }

    /// Prepend an instruction to the beginning of a BB.
    pub fn prepend_inst(&mut self, inst: Inst, bb: Block)
        requires
            old(self)@.wf(),
            old(self)@.spec_inst(inst) is Some,
            old(self)@.inst_home(inst) is None,
            old(self)@.block_ids().contains(bb.0),
        ensures
            final(self)@.wf(),
            final(self)@.block_ids() == old(self)@.block_ids(),
            final(self)@.inst_ids(bb) == seq![inst.0] + old(self)@.inst_ids(bb),
            forall|b: Block| b != bb ==> #[trigger] final(self)@.inst_ids(b) == old(self)@.inst_ids(b),
            final(self)@.inst_home(inst) == Some(bb),
            forall|i: Inst| i != inst ==> #[trigger] final(self)@.inst_home(i) == old(self)@.inst_home(i),
            final(self)@.same_dfg(old(self)@),
            final(self)@.same_cfg(old(self)@),
            same_hints(final(self)@, old(self)@),
            final(self).spec_pos() == old(self).spec_pos(),
            final(self).spec_id() == old(self).spec_id(),
    {
        let ghost prev = self.data;
        self.data.layout.prepend_inst(inst, bb);
        proof {
            let s0 = prev.layout.inst_seq(bb.0);
            lemma_insert_contains(s0, 0, inst.0);
            assert(seq![inst.0] + s0 == s0.insert(0, inst.0));
            self.data.lemma_relayout(prev, None, Some(inst.0));
            assert forall|b: Block| b != bb implies #[trigger] self@.inst_ids(b) == prev.inst_ids(b) by {
                assert(b.0 != bb.0);
            }
            assert forall|i: Inst| i != inst implies #[trigger] self@.inst_home(i) == prev.inst_home(i) by {
                assert(i.0 != inst.0);
            }
        }
    }

    /// Insert an instruction after another instruction.
    pub fn insert_inst_after(&mut self, inst: Inst, after: Inst)
        requires
            old(self)@.wf(),
            old(self)@.spec_inst(inst) is Some,
            old(self)@.inst_home(inst) is None,
            old(self)@.inst_placed(after),
        ensures
            final(self)@.wf(),
            final(self)@.block_ids() == old(self)@.block_ids(),
            final(self)@.inst_ids(old(self)@.inst_home(after)->0) == old(self)@.inst_ids(
                old(self)@.inst_home(after)->0,
            ).insert(old(self)@.inst_ids(old(self)@.inst_home(after)->0).index_of(after.0) + 1, inst.0),
            forall|b: Block| b != old(self)@.inst_home(after)->0 ==> #[trigger] final(self)@.inst_ids(b)
                == old(self)@.inst_ids(b),
            final(self)@.inst_home(inst) == old(self)@.inst_home(after),
            forall|i: Inst| i != inst ==> #[trigger] final(self)@.inst_home(i) == old(self)@.inst_home(i),
            final(self)@.same_dfg(old(self)@),
            final(self)@.same_cfg(old(self)@),
            same_hints(final(self)@, old(self)@),
            final(self).spec_pos() == old(self).spec_pos(),
            final(self).spec_id() == old(self).spec_id(),
    {
        let ghost prev = self.data;
        self.data.layout.insert_inst_after(inst, after);
        proof {
            let bb = prev.layout.inst_home(after.0)->0;
            let s0 = prev.layout.inst_seq(bb);
            lemma_insert_contains(s0, s0.index_of(after.0) + 1, inst.0);
            self.data.lemma_relayout(prev, None, Some(inst.0));
            assert forall|b: Block| b != prev.inst_home(after)->0 implies #[trigger] self@.inst_ids(b) == prev.inst_ids(b) by {
                assert(b.0 != bb);
            }
            assert forall|i: Inst| i != inst implies #[trigger] self@.inst_home(i) == prev.inst_home(i) by {
                assert(i.0 != inst.0);
            }
        }
    }

    /// Insert an instruction before another instruction.
    pub fn insert_inst_before(&mut self, inst: Inst, before: Inst)
        requires
            old(self)@.wf(),
            old(self)@.spec_inst(inst) is Some,
            old(self)@.inst_home(inst) is None,
            old(self)@.inst_placed(before),
        ensures
            final(self)@.wf(),
            final(self)@.block_ids() == old(self)@.block_ids(),
            final(self)@.inst_ids(old(self)@.inst_home(before)->0) == old(self)@.inst_ids(
                old(self)@.inst_home(before)->0,
            ).insert(old(self)@.inst_ids(old(self)@.inst_home(before)->0).index_of(before.0), inst.0),
            forall|b: Block| b != old(self)@.inst_home(before)->0 ==> #[trigger] final(self)@.inst_ids(b)
                == old(self)@.inst_ids(b),
            final(self)@.inst_home(inst) == old(self)@.inst_home(before),
            forall|i: Inst| i != inst ==> #[trigger] final(self)@.inst_home(i) == old(self)@.inst_home(i),
            final(self)@.same_dfg(old(self)@),
            final(self)@.same_cfg(old(self)@),
            same_hints(final(self)@, old(self)@),
            final(self).spec_pos() == old(self).spec_pos(),
            final(self).spec_id() == old(self).spec_id(),
    {
        let ghost prev = self.data;
        self.data.layout.insert_inst_before(inst, before);
        proof {
            let bb = prev.layout.inst_home(before.0)->0;
            let s0 = prev.layout.inst_seq(bb);
            lemma_insert_contains(s0, s0.index_of(before.0), inst.0);
            self.data.lemma_relayout(prev, None, Some(inst.0));
            assert forall|b: Block| b != prev.inst_home(before)->0 implies #[trigger] self@.inst_ids(b) == prev.inst_ids(b) by {
                assert(b.0 != bb);
            }
            assert forall|i: Inst| i != inst implies #[trigger] self@.inst_home(i) == prev.inst_home(i) by {
                assert(i.0 != inst.0);
            }
        }
    }

    /// Remove an instruction from the layout.
    ///
    /// The instruction itself stays in the data flow graph.
    pub fn remove_inst(&mut self, inst: Inst)
        requires
            old(self)@.wf(),
            old(self)@.inst_placed(inst),
        ensures
            final(self)@.wf(),
            final(self)@.block_ids() == old(self)@.block_ids(),
            final(self)@.inst_ids(old(self)@.inst_home(inst)->0) == old(self)@.inst_ids(
                old(self)@.inst_home(inst)->0,
            ).remove(old(self)@.inst_ids(old(self)@.inst_home(inst)->0).index_of(inst.0)),
            forall|b: Block| b != old(self)@.inst_home(inst)->0 ==> #[trigger] final(self)@.inst_ids(b)
                == old(self)@.inst_ids(b),
            final(self)@.inst_home(inst) is None,
            forall|i: Inst| i != inst ==> #[trigger] final(self)@.inst_home(i) == old(self)@.inst_home(i),
            final(self)@.same_dfg(old(self)@),
            final(self)@.same_cfg(old(self)@),
            final(self).spec_pos() == old(self).spec_pos(),
            final(self).spec_id() == old(self).spec_id(),
    {
        let ghost prev = self.data;
        self.data.layout.remove_inst(inst);
        proof {
            let bb = prev.layout.inst_home(inst.0)->0;
            let s0 = prev.layout.inst_seq(bb);
            let k = s0.index_of(inst.0);
            assert forall|b: u32, i: u32|
                self.data.layout.block_seq().contains(b) && #[trigger] self.data.layout.inst_seq(b).contains(i) implies (
                prev.layout.block_seq().contains(b) && prev.layout.inst_seq(b).contains(i)) by {
                if b == bb {
                    let s = self.data.layout.inst_seq(b);
                    let j = choose|j: int| 0 <= j < s.len() && s[j] == i;
                    if j < k {
                        assert(s0[j] == i);
                    } else {
                        assert(s0[j + 1] == i);
                    }
                }
            }
            self.data.lemma_relayout(prev, None, Some(inst.0));
            assert forall|b: Block| b != prev.inst_home(inst)->0 implies #[trigger] self@.inst_ids(b) == prev.inst_ids(b) by {
                assert(b.0 != bb);
            }
            assert forall|i: Inst| i != inst implies #[trigger] self@.inst_home(i) == prev.inst_home(i) by {
                assert(i.0 != inst.0);
            }
        }
    }
}


/// The block that an insertion position puts instructions into.
pub open spec fn pos_block(d: UnitData, pos: InsertPos) -> Block {
    match pos {
        InsertPos::Append(bb) => bb,
        InsertPos::Prepend(bb) => bb,
        InsertPos::After(i) => d.inst_home(i)->0,
        InsertPos::Before(i) => d.inst_home(i)->0,
        InsertPos::Nowhere => Block(0),
    }
}

/// The order of the position's block after `x` was inserted at `pos`.
pub open spec fn placed_seq(d: UnitData, pos: InsertPos, x: u32) -> Seq<u32> {
    let s = d.inst_ids(pos_block(d, pos));
    match pos {
        InsertPos::Append(_) => s.push(x),
        InsertPos::Prepend(_) => seq![x] + s,
        InsertPos::After(i) => s.insert(s.index_of(i.0) + 1, x),
        InsertPos::Before(i) => s.insert(s.index_of(i.0), x),
        InsertPos::Nowhere => s,
    }
}

/// Where the builder inserts after having inserted `inst` at `pos`.
pub open spec fn next_pos(pos: InsertPos, inst: Inst) -> InsertPos {
    match pos {
        InsertPos::Prepend(_) => InsertPos::After(inst),
        InsertPos::After(_) => InsertPos::After(inst),
        _ => pos,
    }
}

/// `new` is `old` with `inst` placed at `pos`, and the rest of the layout
/// unchanged.
pub open spec fn placed_at(old: UnitData, new: UnitData, inst: Inst, pos: InsertPos) -> bool {
    &&& new.block_ids() == old.block_ids()
    &&& new.inst_ids(pos_block(old, pos)) == placed_seq(old, pos, inst.0)
    &&& forall|b: Block| b != pos_block(old, pos) ==> #[trigger] new.inst_ids(b) == old.inst_ids(b)
    &&& new.inst_home(inst) == Some(pos_block(old, pos))
    &&& forall|i: Inst| i != inst ==> #[trigger] new.inst_home(i) == old.inst_home(i)
}

/// `new` is `old` with the fresh instruction `inst` added to the data flow
/// graph, with a fresh result value if it produces one.
pub open spec fn inst_added(old: UnitData, new: UnitData, inst: Inst, data: InstData, ty: Type) -> bool {
    &&& inst.0 == old.inst_bound()
    &&& new.inst_bound() == old.inst_bound() + 1
    &&& new.spec_inst(inst) == Some(data)
    &&& forall|i: Inst| i != inst ==> #[trigger] new.spec_inst(i) == old.spec_inst(i)
    &&& forall|i: Inst| i != inst ==> #[trigger] new.spec_result(i) == old.spec_result(i)
    &&& produces_value(data.spec_opcode(), ty) ==> {
        &&& new.spec_result(inst) == Some(Value(old.value_bound() as u32))
        &&& new.value_bound() == old.value_bound() + 1
        &&& new.spec_value(Value(old.value_bound() as u32)) == Some(ValueData::Inst { ty, inst })
        &&& new.spec_value_name(Value(old.value_bound() as u32)) is None
    }
    &&& !produces_value(data.spec_opcode(), ty) ==> {
        &&& new.spec_result(inst) is None
        &&& new.value_bound() == old.value_bound()
    }
    &&& forall|w: Value| (w.0 as int) < old.value_bound() ==> #[trigger] new.spec_value(w) == old.spec_value(w)
    &&& forall|w: Value| (w.0 as int) < old.value_bound() ==> #[trigger] new.spec_value_name(w) == old.spec_value_name(w)
    &&& forall|a: Arg| #[trigger] new.spec_arg_value(a) == old.spec_arg_value(a)
    &&& new.spec_kind() == old.spec_kind()
    &&& new.spec_name() == old.spec_name()
    &&& new.spec_sig() == old.spec_sig()
    &&& new.spec_exts() == old.spec_exts()
    &&& new.same_cfg(old)
    &&& same_hints(new, old)
}

/// The anonymous name hints and location hints are the same in both units.
pub open spec fn same_hints(new: UnitData, old: UnitData) -> bool {
    &&& forall|v: Value| #[trigger] new.spec_value_hint(v) == old.spec_value_hint(v)
    &&& forall|bb: Block| #[trigger] new.spec_block_hint(bb) == old.spec_block_hint(bb)
    &&& forall|i: Inst| #[trigger] new.spec_location_hint(i) == old.spec_location_hint(i)
}

/// The builder built `inst` from `data` and `ty` at its position.
pub open spec fn built(old: UnitBuilder, new: UnitBuilder, inst: Inst, data: InstData, ty: Type) -> bool {
    &&& new@.wf()
    &&& inst_added(old@, new@, inst, data, ty)
    &&& placed_at(old@, new@, inst, old.spec_pos())
    &&& new.spec_pos() == next_pos(old.spec_pos(), inst)
    &&& new.spec_id() == old.spec_id()
}

/// Room for one more instruction with a result.
pub open spec fn has_room(d: UnitData) -> bool {
    &&& d.inst_bound() + 3 < u32::MAX
    &&& d.value_bound() + 3 < u32::MAX
    &&& d.block_bound() + 3 < u32::MAX
}

impl UnitData {
    /// Add a value, keeping the unit well-formed.
    fn add_value_wf(&mut self, data: ValueData) -> (v: Value)
        requires
            old(self).wf(),
            old(self).value_bound() + 2 < u32::MAX,
        ensures
            final(self).wf(),
            v.0 == old(self).value_bound(),
            final(self).value_bound() == old(self).value_bound() + 1,
            final(self).spec_value(v) == Some(data),
            final(self).spec_value_name(v) is None,
            forall|w: Value| w != v ==> #[trigger] final(self).spec_value(w) == old(self).spec_value(w),
            forall|w: Value| w != v ==> #[trigger] final(self).spec_value_name(w) == old(self).spec_value_name(w),
            final(self).same_layout(*old(self)),
            final(self).same_cfg(*old(self)),
            final(self).spec_kind() == old(self).spec_kind(),
            final(self).spec_name() == old(self).spec_name(),
            final(self).spec_sig() == old(self).spec_sig(),
            final(self).inst_bound() == old(self).inst_bound(),
            final(self).spec_exts() == old(self).spec_exts(),
            forall|i: Inst| #[trigger] final(self).spec_inst(i) == old(self).spec_inst(i),
            forall|i: Inst| #[trigger] final(self).spec_result(i) == old(self).spec_result(i),
            forall|a: Arg| #[trigger] final(self).spec_arg_value(a) == old(self).spec_arg_value(a),
    {
        self.add_value(data)
    }

    /// Add an instruction to the data flow graph, keeping the unit
    /// well-formed.
    fn add_inst_wf(&mut self, data: InstData, ty: Type) -> (inst: Inst)
        requires
            old(self).wf(),
            has_room(*old(self)),
        ensures
            final(self).wf(),
            inst_added(*old(self), *final(self), inst, data, ty),
            final(self).same_layout(*old(self)),
            final(self).inst_home(inst) is None,
    {
        proof { old(self).lemma_fresh_unplaced(Inst(self.insts@.len() as u32)); }
        self.add_inst_dfg(data, ty)
    }

    /// Remove an instruction that is not placed from the data flow graph,
    /// together with its result value.
    fn remove_inst_dfg(&mut self, inst: Inst)
        requires
            old(self).wf(),
            old(self).spec_inst(inst) is Some,
            old(self).inst_home(inst) is None,
        ensures
            final(self).wf(),
            final(self).spec_inst(inst) is None,
            final(self).spec_result(inst) is None,
            forall|i: Inst| i != inst ==> #[trigger] final(self).spec_inst(i) == old(self).spec_inst(i),
            forall|i: Inst| i != inst ==> #[trigger] final(self).spec_result(i) == old(self).spec_result(i),
            old(self).spec_result(inst) is Some ==> final(self).spec_value(old(self).spec_result(inst)->0) is None,
            forall|w: Value| old(self).spec_result(inst) != Some(w) ==> #[trigger] final(self).spec_value(w)
                == old(self).spec_value(w),
            forall|w: Value| #[trigger] final(self).spec_value_name(w) == old(self).spec_value_name(w),
            forall|a: Arg| #[trigger] final(self).spec_arg_value(a) == old(self).spec_arg_value(a),
            final(self).inst_bound() == old(self).inst_bound(),
            final(self).value_bound() == old(self).value_bound(),
            final(self).spec_kind() == old(self).spec_kind(),
            final(self).spec_name() == old(self).spec_name(),
            final(self).spec_sig() == old(self).spec_sig(),
            final(self).spec_exts() == old(self).spec_exts(),
            final(self).same_layout(*old(self)),
            final(self).same_cfg(*old(self)),
    {
        let k = inst.0 as usize;
        let ghost prev = *self;
        proof {
            assert(has_value(prev.results@, k as int) ==> is_result_of(prev.values@[(prev.results@[k as int]->0).0 as int], inst));
        }
        if let Some(v) = self.results[k] {
            proof { assert(has_value(prev.results@, k as int)); }
            self.values.set(v.0 as usize, None);
        }
        self.results.set(k, None);
        self.insts.set(k, None);
        proof {
            let removed = prev.results@[k as int];
            assert forall|i: int| #[trigger] has_value(self.results@, i) implies {
                &&& ((self.results@[i]->0).0 as int) < self.values@.len()
                &&& is_result_of(self.values@[(self.results@[i]->0).0 as int], Inst(i as u32))
            } by {
                assert(has_value(prev.results@, i));
                assert(i != k as int);
                if removed is Some {
                    assert(has_value(prev.results@, k as int));
                    if (self.results@[i]->0) == removed->0 {
                        assert(Inst(i as u32) != inst);
                    }
                }
            }
            assert forall|a: int| #[trigger] has_value(self.args@, a) implies {
                &&& ((self.args@[a]->0).0 as int) < self.values@.len()
                &&& is_arg_value(self.values@[(self.args@[a]->0).0 as int], Arg(a as u32))
            } by {
                assert(has_value(prev.args@, a));
                if removed is Some {
                    assert(has_value(prev.results@, k as int));
                    assert(is_result_of(prev.values@[(removed->0).0 as int], inst));
                    assert(is_arg_value(prev.values@[(prev.args@[a]->0).0 as int], Arg(a as u32)));
                    assert((prev.args@[a]->0) != removed->0);
                }
            }
            assert forall|b: u32, i: u32|
                self.layout.block_seq().contains(b) && #[trigger] self.layout.inst_seq(b).contains(i)
                    implies entry_at(self.insts@, i as int) is Some by {
                assert(entry_at(prev.insts@, i as int) is Some);
                if i == inst.0 {
                    prev.layout.lemma_home_of_placed(b, i);
                }
            }
            assert forall|i: Inst| i != inst implies #[trigger] self.spec_inst(i) == prev.spec_inst(i)
                && self.spec_result(i) == prev.spec_result(i) by {
                assert(i.0 != inst.0);
            }
            assert forall|kk: int| 0 <= kk < self.sig@.all_args().len() implies #[trigger] has_value(
                self.args@,
                self.sig@.all_args()[kk].0 as int,
            ) by {
                assert(has_value(prev.args@, prev.sig@.all_args()[kk].0 as int));
            }
        }
    }
}

impl UnitBuilder {
    /// Add a new instruction at the builder's position.
    pub fn build_inst(&mut self, data: InstData, ty: Type) -> (inst: Inst)
        requires
            old(self)@.wf(),
            old(self).pos_valid(),
            has_room(old(self)@),
        ensures
            built(*old(self), *final(self), inst, data, ty),
    {
        let ghost d0 = self.data;
        let inst = self.data.add_inst_wf(data, ty);
        let ghost d1 = self.data;
        match self.pos {
            InsertPos::Append(bb) => {
                self.append_inst(inst, bb);
            },
            InsertPos::Prepend(bb) => {
                self.prepend_inst(inst, bb);
                self.pos = InsertPos::After(inst);
            },
            InsertPos::After(other) => {
                self.insert_inst_after(inst, other);
                self.pos = InsertPos::After(inst);
            },
            InsertPos::Before(other) => {
                self.insert_inst_before(inst, other);
            },
            InsertPos::Nowhere => {
                proof { assert(false); }
            },
        }
        proof {
            assert(self@.same_dfg(d1));
            assert(self@.same_cfg(d1));
            assert forall|b: Block| b != pos_block(d0, old(self).pos) implies #[trigger] self@.inst_ids(b) == d0.inst_ids(b) by {
                assert(d1.inst_ids(b) == d0.inst_ids(b));
            }
            assert forall|i: Inst| i != inst implies #[trigger] self@.inst_home(i) == d0.inst_home(i) by {
                assert(d1.inst_home(i) == d0.inst_home(i));
            }
            assert forall|i: Inst| i != inst implies #[trigger] self@.spec_inst(i) == d0.spec_inst(i) by {
                assert(d1.spec_inst(i) == d0.spec_inst(i));
            }
            assert forall|i: Inst| i != inst implies #[trigger] self@.spec_result(i) == d0.spec_result(i) by {
                assert(d1.spec_result(i) == d0.spec_result(i));
            }
            assert forall|w: Value| (w.0 as int) < d0.value_bound() implies #[trigger] self@.spec_value(w) == d0.spec_value(w)
                && self@.spec_value_name(w) == d0.spec_value_name(w) by {
                assert(d1.spec_value(w) == d0.spec_value(w));
                assert(d1.spec_value_name(w) == d0.spec_value_name(w));
            }
            assert forall|a: Arg| #[trigger] self@.spec_arg_value(a) == d0.spec_arg_value(a) by {
                assert(d1.spec_arg_value(a) == d0.spec_arg_value(a));
            }
            assert forall|bb: Block| #[trigger] self@.spec_block(bb) == d0.spec_block(bb) by {
                assert(d1.spec_block(bb) == d0.spec_block(bb));
            }
            assert forall|v: Value| #[trigger] self@.spec_value_hint(v) == d0.spec_value_hint(v) by {
                assert(d1.spec_value_hint(v) == d0.spec_value_hint(v));
            }
            assert forall|bb: Block| #[trigger] self@.spec_block_hint(bb) == d0.spec_block_hint(bb) by {
                assert(d1.spec_block_hint(bb) == d0.spec_block_hint(bb));
            }
            assert forall|i: Inst| #[trigger] self@.spec_location_hint(i) == d0.spec_location_hint(i) by {
                assert(d1.spec_location_hint(i) == d0.spec_location_hint(i));
            }
        }
        inst
    }

    /// Remove an instruction from the layout and delete it, together with
    /// its result value.
    ///
    /// A builder positioned right after or right before the instruction
    /// moves to its neighbour, or to the end or beginning of its block.
    pub fn delete_inst(&mut self, inst: Inst)
        requires
            old(self)@.wf(),
            old(self)@.inst_placed(inst),
            old(self)@.spec_result(inst) is Some ==> !(exists|i: Inst| old(self)@.reads_value(
                i,
                old(self)@.spec_result(inst)->0,
            )),
        ensures
            final(self)@.wf(),
            final(self)@.spec_inst(inst) is None,
            final(self)@.spec_result(inst) is None,
            final(self)@.inst_home(inst) is None,
            final(self)@.block_ids() == old(self)@.block_ids(),
            final(self)@.inst_ids(old(self)@.inst_home(inst)->0) == old(self)@.inst_ids(
                old(self)@.inst_home(inst)->0,
            ).remove(old(self)@.inst_ids(old(self)@.inst_home(inst)->0).index_of(inst.0)),
            forall|b: Block| b != old(self)@.inst_home(inst)->0 ==> #[trigger] final(self)@.inst_ids(b)
                == old(self)@.inst_ids(b),
            forall|i: Inst| i != inst ==> #[trigger] final(self)@.inst_home(i) == old(self)@.inst_home(i),
            forall|i: Inst| i != inst ==> #[trigger] final(self)@.spec_inst(i) == old(self)@.spec_inst(i),
            forall|i: Inst| i != inst ==> #[trigger] final(self)@.spec_result(i) == old(self)@.spec_result(i),
            forall|w: Value| old(self)@.spec_result(inst) != Some(w) ==> #[trigger] final(self)@.spec_value(w)
                == old(self)@.spec_value(w),
            final(self)@.inst_bound() == old(self)@.inst_bound(),
            final(self).spec_id() == old(self).spec_id(),
            old(self).spec_pos() == InsertPos::After(inst) ==> final(self).spec_pos() == (match next_in(
                old(self)@.inst_ids(old(self)@.inst_home(inst)->0),
                old(self)@.inst_ids(old(self)@.inst_home(inst)->0).index_of(inst.0),
            ) {
                Some(n) => InsertPos::Before(Inst(n)),
                None => InsertPos::Append(old(self)@.inst_home(inst)->0),
            }),
            old(self).spec_pos() == InsertPos::Before(inst) ==> final(self).spec_pos() == (match prev_in(
                old(self)@.inst_ids(old(self)@.inst_home(inst)->0),
                old(self)@.inst_ids(old(self)@.inst_home(inst)->0).index_of(inst.0),
            ) {
                Some(p) => InsertPos::After(Inst(p)),
                None => InsertPos::Prepend(old(self)@.inst_home(inst)->0),
            }),
            old(self).spec_pos() != InsertPos::After(inst) && old(self).spec_pos() != InsertPos::Before(inst)
                ==> final(self).spec_pos() == old(self).spec_pos(),
    {
        let pos = self.pos;
        let u = self.unit();
        let new_pos = match pos {
            InsertPos::After(i) => {
                if i == inst {
                    match u.next_inst(i) {
                        Some(n) => InsertPos::Before(n),
                        None => InsertPos::Append(u.inst_block(i).unwrap()),
                    }
                } else {
                    pos
                }
            },
            InsertPos::Before(i) => {
                if i == inst {
                    match u.prev_inst(i) {
                        Some(p) => InsertPos::After(p),
                        None => InsertPos::Prepend(u.inst_block(i).unwrap()),
                    }
                } else {
                    pos
                }
            },
            _ => pos,
        };
        proof {
            let bb = self@.inst_home(inst)->0;
            self@.lemma_placed_exists(bb.0, inst.0);
        }
        self.remove_inst(inst);
        let ghost mid = self.data;
        self.data.remove_inst_dfg(inst);
        self.pos = new_pos;
        proof {
            assert forall|b: Block| b != old(self)@.inst_home(inst)->0 implies #[trigger] self@.inst_ids(b) == old(self)@.inst_ids(b) by {
                assert(mid.inst_ids(b) == old(self)@.inst_ids(b));
            }
            assert forall|i: Inst| i != inst implies #[trigger] self@.inst_home(i) == old(self)@.inst_home(i) by {
                assert(mid.inst_home(i) == old(self)@.inst_home(i));
            }
            assert forall|i: Inst| i != inst implies #[trigger] self@.spec_inst(i) == old(self)@.spec_inst(i) by {
                assert(mid.spec_inst(i) == old(self)@.spec_inst(i));
            }
            assert forall|i: Inst| i != inst implies #[trigger] self@.spec_result(i) == old(self)@.spec_result(i) by {
                assert(mid.spec_result(i) == old(self)@.spec_result(i));
            }
            assert forall|w: Value| old(self)@.spec_result(inst) != Some(w) implies #[trigger] self@.spec_value(w)
                == old(self)@.spec_value(w) by {
                assert(mid.spec_value(w) == old(self)@.spec_value(w));
            }
        }
    }

    /// Create a new BB at the end of the layout.
    pub fn block(&mut self) -> (bb: Block)
        requires
            old(self)@.wf(),
            has_room(old(self)@),
        ensures
            final(self)@.wf(),
            bb.0 == old(self)@.block_bound(),
            final(self)@.block_bound() == old(self)@.block_bound() + 1,
            final(self)@.spec_block(bb) == Some(BlockData { name: None }),
            forall|b: Block| b != bb ==> #[trigger] final(self)@.spec_block(b) == old(self)@.spec_block(b),
            final(self)@.block_ids() == old(self)@.block_ids().push(bb.0),
            final(self)@.inst_ids(bb) == Seq::<u32>::empty(),
            forall|b: Block| b != bb ==> #[trigger] final(self)@.inst_ids(b) == old(self)@.inst_ids(b),
            forall|i: Inst| #[trigger] final(self)@.inst_home(i) == old(self)@.inst_home(i),
            final(self)@.same_dfg(old(self)@),
            final(self).spec_pos() == old(self).spec_pos(),
            final(self).spec_id() == old(self).spec_id(),
    {
        self.block_with_name(None)
    }

    /// Create a new named BB at the end of the layout.
    pub fn named_block(&mut self, name: String) -> (bb: Block)
        requires
            old(self)@.wf(),
            has_room(old(self)@),
        ensures
            final(self)@.wf(),
            bb.0 == old(self)@.block_bound(),
            final(self)@.block_bound() == old(self)@.block_bound() + 1,
            final(self)@.spec_block(bb) == Some(BlockData { name: Some(name) }),
            forall|b: Block| b != bb ==> #[trigger] final(self)@.spec_block(b) == old(self)@.spec_block(b),
            final(self)@.block_ids() == old(self)@.block_ids().push(bb.0),
            final(self)@.inst_ids(bb) == Seq::<u32>::empty(),
            forall|b: Block| b != bb ==> #[trigger] final(self)@.inst_ids(b) == old(self)@.inst_ids(b),
            forall|i: Inst| #[trigger] final(self)@.inst_home(i) == old(self)@.inst_home(i),
            final(self)@.same_dfg(old(self)@),
            final(self).spec_pos() == old(self).spec_pos(),
            final(self).spec_id() == old(self).spec_id(),
    {
        self.block_with_name(Some(name))
    }

    /// Create a new BB with an optional name at the end of the layout.
    fn block_with_name(&mut self, name: Option<String>) -> (bb: Block)
        requires
            old(self)@.wf(),
            has_room(old(self)@),
        ensures
            final(self)@.wf(),
            bb.0 == old(self)@.block_bound(),
            final(self)@.block_bound() == old(self)@.block_bound() + 1,
            final(self)@.spec_block(bb) == Some(BlockData { name }),
            forall|b: Block| b != bb ==> #[trigger] final(self)@.spec_block(b) == old(self)@.spec_block(b),
            final(self)@.block_ids() == old(self)@.block_ids().push(bb.0),
            final(self)@.inst_ids(bb) == Seq::<u32>::empty(),
            forall|b: Block| b != bb ==> #[trigger] final(self)@.inst_ids(b) == old(self)@.inst_ids(b),
            forall|i: Inst| #[trigger] final(self)@.inst_home(i) == old(self)@.inst_home(i),
            final(self)@.same_dfg(old(self)@),
            final(self).spec_pos() == old(self).spec_pos(),
            final(self).spec_id() == old(self).spec_id(),
    {
        let ghost d0 = self.data;
        let bb = self.data.add_block_cfg(name);
        proof {
            assert forall|kk: int| 0 <= kk < self.data.sig@.all_args().len() implies #[trigger] has_value(
                self.data.args@,
                self.data.sig@.all_args()[kk].0 as int,
            ) by {
                assert(self.data.spec_arg_value(self.data.sig@.all_args()[kk]) == d0.spec_arg_value(d0.sig@.all_args()[kk]));
                assert(has_value(d0.args@, d0.sig@.all_args()[kk].0 as int));
            }
        }
        let ghost d1 = self.data;
        self.append_block(bb);
        proof {
            assert forall|b: Block| b != bb implies #[trigger] self@.inst_ids(b) == d0.inst_ids(b) by {
                assert(d1.inst_ids(b) == d0.inst_ids(b));
            }
            assert forall|i: Inst| #[trigger] self@.inst_home(i) == d0.inst_home(i) by {
                assert(d1.inst_home(i) == d0.inst_home(i));
            }
            assert forall|b: Block| b != bb implies #[trigger] self@.spec_block(b) == d0.spec_block(b) by {
                assert(d1.spec_block(b) == d0.spec_block(b));
            }
        }
        bb
    }
}


impl UnitBuilder {
    /// Import an external unit for use within this unit.
    pub fn add_extern(&mut self, name: UnitName, sig: Signature) -> (ext: ExtUnit)
        requires
            old(self)@.wf(),
            old(self)@.spec_exts().len() + 2 < u32::MAX,
        ensures
            final(self)@.wf(),
            ext.0 == old(self)@.spec_exts().len(),
            final(self)@.spec_exts() == old(self)@.spec_exts().push(ExtUnitData { name, sig }),
            final(self)@.same_layout(old(self)@),
            final(self)@.same_cfg(old(self)@),
            forall|i: Inst| #[trigger] final(self)@.spec_inst(i) == old(self)@.spec_inst(i),
            forall|i: Inst| #[trigger] final(self)@.spec_result(i) == old(self)@.spec_result(i),
            forall|v: Value| #[trigger] final(self)@.spec_value(v) == old(self)@.spec_value(v),
            final(self).spec_pos() == old(self).spec_pos(),
            final(self).spec_id() == old(self).spec_id(),
    {
        let ext = ExtUnit(self.data.ext_units.len() as u32);
        self.data.ext_units.push(ExtUnitData { sig, name });
        ext
    }

    /// Set the name of a BB.
    pub fn set_block_name(&mut self, bb: Block, name: String)
        requires
            old(self)@.wf(),
            old(self)@.spec_block(bb) is Some,
        ensures
            final(self)@.wf(),
            final(self)@.spec_block(bb) == Some(BlockData { name: Some(name) }),
            forall|b: Block| b != bb ==> #[trigger] final(self)@.spec_block(b) == old(self)@.spec_block(b),
            final(self)@.block_bound() == old(self)@.block_bound(),
            final(self)@.same_layout(old(self)@),
            final(self)@.same_dfg(old(self)@),
            final(self).spec_pos() == old(self).spec_pos(),
            final(self).spec_id() == old(self).spec_id(),
    {
        self.data.blocks.set(bb.0 as usize, Some(BlockData { name: Some(name) }));
        proof {
            assert forall|b: Block| b != bb implies #[trigger] self@.spec_block(b) == old(self)@.spec_block(b) by {
                assert(b.0 != bb.0);
            }
        }
    }

    /// Clear the name of a BB, returning the name it had.
    pub fn clear_block_name(&mut self, bb: Block) -> (r: Option<String>)
        requires
            old(self)@.wf(),
            old(self)@.spec_block(bb) is Some,
        ensures
            final(self)@.wf(),
            r == old(self)@.spec_block(bb)->0.name,
            final(self)@.spec_block(bb) == Some(BlockData { name: None }),
            forall|b: Block| b != bb ==> #[trigger] final(self)@.spec_block(b) == old(self)@.spec_block(b),
            final(self)@.block_bound() == old(self)@.block_bound(),
            final(self)@.same_layout(old(self)@),
            final(self)@.same_dfg(old(self)@),
            final(self).spec_pos() == old(self).spec_pos(),
            final(self).spec_id() == old(self).spec_id(),
    {
        let k = bb.0 as usize;
        let r = match &self.data.blocks[k] {
            Some(d) => match &d.name {
                Some(n) => Some(n.clone()),
                None => None,
            },
            None => None,
        };
        self.data.blocks.set(k, Some(BlockData { name: None }));
        proof {
            assert forall|b: Block| b != bb implies #[trigger] self@.spec_block(b) == old(self)@.spec_block(b) by {
                assert(b.0 != bb.0);
            }
        }
        r
    }

    /// Add a placeholder value.
    ///
    /// This function is intended to be used when constructing PHI nodes.
    pub fn add_placeholder(&mut self, ty: Type) -> (v: Value)
        requires
            old(self)@.wf(),
            old(self)@.value_bound() + 2 < u32::MAX,
        ensures
            final(self)@.wf(),
            v.0 == old(self)@.value_bound(),
            final(self)@.value_bound() == old(self)@.value_bound() + 1,
            final(self)@.spec_value(v) == Some(ValueData::Placeholder { ty }),
            forall|w: Value| w != v ==> #[trigger] final(self)@.spec_value(w) == old(self)@.spec_value(w),
            final(self)@.same_layout(old(self)@),
            final(self)@.same_cfg(old(self)@),
            forall|i: Inst| #[trigger] final(self)@.spec_inst(i) == old(self)@.spec_inst(i),
            forall|i: Inst| #[trigger] final(self)@.spec_result(i) == old(self)@.spec_result(i),
            final(self).spec_pos() == old(self).spec_pos(),
            final(self).spec_id() == old(self).spec_id(),
    {
        self.data.add_value_wf(ValueData::Placeholder { ty })
    }

    /// Remove a placeholder value that is no longer used.
    pub fn remove_placeholder(&mut self, value: Value)
        requires
            old(self)@.wf(),
            old(self)@.spec_value(value) is Some,
            old(self)@.spec_value(value)->0 is Placeholder,
            !(exists|i: Inst| old(self)@.reads_value(i, value)),
        ensures
            final(self)@.wf(),
            final(self)@.spec_value(value) is None,
            forall|w: Value| w != value ==> #[trigger] final(self)@.spec_value(w) == old(self)@.spec_value(w),
            final(self)@.value_bound() == old(self)@.value_bound(),
            final(self)@.same_layout(old(self)@),
            final(self)@.same_cfg(old(self)@),
            forall|i: Inst| #[trigger] final(self)@.spec_inst(i) == old(self)@.spec_inst(i),
            forall|i: Inst| #[trigger] final(self)@.spec_result(i) == old(self)@.spec_result(i),
            forall|a: Arg| #[trigger] final(self)@.spec_arg_value(a) == old(self)@.spec_arg_value(a),
            final(self).spec_pos() == old(self).spec_pos(),
            final(self).spec_id() == old(self).spec_id(),
    {
        let ghost prev = self.data;
        self.data.values.set(value.0 as usize, None);
        proof {
            assert forall|i: int| #[trigger] has_value(self.data.results@, i) implies {
                &&& ((self.data.results@[i]->0).0 as int) < self.data.values@.len()
                &&& is_result_of(self.data.values@[(self.data.results@[i]->0).0 as int], Inst(i as u32))
            } by {
                assert(has_value(prev.results@, i));
            }
            assert forall|a: int| #[trigger] has_value(self.data.args@, a) implies {
                &&& ((self.data.args@[a]->0).0 as int) < self.data.values@.len()
                &&& is_arg_value(self.data.values@[(self.data.args@[a]->0).0 as int], Arg(a as u32))
            } by {
                assert(has_value(prev.args@, a));
            }
            assert forall|w: Value| w != value implies #[trigger] self@.spec_value(w) == prev.spec_value(w) by {
                assert(w.0 != value.0);
            }
        }
    }

    /// Set the name of a value.
    pub fn set_name(&mut self, value: Value, name: String)
        requires
            old(self)@.wf(),
            (value.0 as int) < old(self)@.value_bound(),
        ensures
            final(self)@.wf(),
            final(self)@.spec_value_name(value) == Some(name),
            forall|w: Value| w != value ==> #[trigger] final(self)@.spec_value_name(w) == old(self)@.spec_value_name(w),
            final(self)@.value_bound() == old(self)@.value_bound(),
            final(self)@.same_layout(old(self)@),
            final(self)@.same_cfg(old(self)@),
            forall|i: Inst| #[trigger] final(self)@.spec_inst(i) == old(self)@.spec_inst(i),
            forall|i: Inst| #[trigger] final(self)@.spec_result(i) == old(self)@.spec_result(i),
            forall|v: Value| #[trigger] final(self)@.spec_value(v) == old(self)@.spec_value(v),
            forall|a: Arg| #[trigger] final(self)@.spec_arg_value(a) == old(self)@.spec_arg_value(a),
            final(self).spec_pos() == old(self).spec_pos(),
            final(self).spec_id() == old(self).spec_id(),
    {
        self.data.value_names.set(value.0 as usize, Some(name));
        proof {
            assert forall|w: Value| w != value implies #[trigger] self@.spec_value_name(w) == old(self)@.spec_value_name(w) by {
                assert(w.0 != value.0);
            }
        }
    }

    /// Clear the name of a value, returning the name it had.
    pub fn clear_name(&mut self, value: Value) -> (r: Option<String>)
        requires
            old(self)@.wf(),
        ensures
            final(self)@.wf(),
            r == old(self)@.spec_value_name(value),
            final(self)@.spec_value_name(value) is None,
            forall|w: Value| w != value ==> #[trigger] final(self)@.spec_value_name(w) == old(self)@.spec_value_name(w),
            final(self)@.value_bound() == old(self)@.value_bound(),
            final(self)@.same_layout(old(self)@),
            final(self)@.same_cfg(old(self)@),
            forall|i: Inst| #[trigger] final(self)@.spec_inst(i) == old(self)@.spec_inst(i),
            forall|v: Value| #[trigger] final(self)@.spec_value(v) == old(self)@.spec_value(v),
            final(self).spec_pos() == old(self).spec_pos(),
            final(self).spec_id() == old(self).spec_id(),
    {
        let k = value.0 as usize;
        if k < self.data.value_names.len() {
            let r = match &self.data.value_names[k] {
                Some(n) => Some(n.clone()),
                None => None,
            };
            self.data.value_names.set(k, None);
            proof {
                assert forall|w: Value| w != value implies #[trigger] self@.spec_value_name(w) == old(self)@.spec_value_name(w) by {
                    assert(w.0 != value.0);
                }
            }
            r
        } else {
            None
        }
    }
}


/// The type of an existing, valid value of the unit.
pub open spec fn ty_of(d: UnitData, v: Value) -> Type {
    value_data_ty(d.spec_value(v)->0)
}

/// `v` is an existing value that has a type other than void.
pub open spec fn typed_value(d: UnitData, v: Value) -> bool {
    &&& d.spec_value(v) is Some
    &&& !(d.spec_value(v)->0 is Invalid)
    &&& !(ty_of(d, v) is VoidType)
}

/// The builder can insert an instruction right now.
pub open spec fn ready(b: UnitBuilder) -> bool {
    &&& b@.wf()
    &&& b.pos_valid()
    &&& has_room(b@)
}

/// # Instruction construction
impl UnitBuilder {
    /// Build an instruction that produces a value, and return that value.
    fn build_value(&mut self, data: InstData, ty: Type) -> (v: Value)
        requires
            ready(*old(self)),
            !(ty is VoidType),
        ensures
            built(*old(self), *final(self), Inst(old(self)@.inst_bound() as u32), data, ty),
            v == Value(old(self)@.value_bound() as u32),
    {
        let inst = self.build_inst(data, ty);
        proof { assert(self@.spec_result(inst) is Some); }
        self.unit().inst_result(inst)
    }

    /// Build a unary instruction that has the type of its argument.
    fn build_unary_same(&mut self, opcode: Opcode, x: Value) -> (v: Value)
        requires
            ready(*old(self)),
            typed_value(old(self)@, x),
        ensures
            built(
                *old(self),
                *final(self),
                Inst(old(self)@.inst_bound() as u32),
                InstData::Unary { opcode, args: [x] },
                ty_of(old(self)@, x),
            ),
            v == Value(old(self)@.value_bound() as u32),
    {
        let ty = self.unit().value_type(x);
        self.build_value(InstData::Unary { opcode, args: [x] }, ty)
    }

    /// Build a binary instruction that has the type of its first argument.
    fn build_binary_same(&mut self, opcode: Opcode, x: Value, y: Value) -> (v: Value)
        requires
            ready(*old(self)),
            typed_value(old(self)@, x),
        ensures
            built(
                *old(self),
                *final(self),
                Inst(old(self)@.inst_bound() as u32),
                InstData::Binary { opcode, args: [x, y] },
                ty_of(old(self)@, x),
            ),
            v == Value(old(self)@.value_bound() as u32),
    {
        let ty = self.unit().value_type(x);
        self.build_value(InstData::Binary { opcode, args: [x, y] }, ty)
    }

    /// Build a comparison, which yields a single bit.
    fn build_compare(&mut self, opcode: Opcode, x: Value, y: Value) -> (v: Value)
        requires
            ready(*old(self)),
        ensures
            built(
                *old(self),
                *final(self),
                Inst(old(self)@.inst_bound() as u32),
                InstData::Binary { opcode, args: [x, y] },
                TypeKind::IntType(1),
            ),
            v == Value(old(self)@.value_bound() as u32),
    {
        self.build_value(InstData::Binary { opcode, args: [x, y] }, int_ty(1))
    }

    /// Construct an integer constant.
    pub fn const_int(&mut self, value: IntValue) -> (v: Value)
        requires
            ready(*old(self)),
        ensures
            built(
                *old(self),
                *final(self),
                Inst(old(self)@.inst_bound() as u32),
                InstData::ConstInt { opcode: Opcode::ConstInt, imm: value },
                TypeKind::IntType(value.spec_width()),
            ),
            v == Value(old(self)@.value_bound() as u32),
    {
        let ty = value.ty();
        self.build_value(InstData::ConstInt { opcode: Opcode::ConstInt, imm: value }, ty)
    }

    /// Construct a time constant.
    pub fn const_time(&mut self, value: TimeValue) -> (v: Value)
        requires
            ready(*old(self)),
        ensures
            built(
                *old(self),
                *final(self),
                Inst(old(self)@.inst_bound() as u32),
                InstData::ConstTime { opcode: Opcode::ConstTime, imm: value },
                TypeKind::TimeType,
            ),
            v == Value(old(self)@.value_bound() as u32),
    {
        let ty = value.ty();
        self.build_value(InstData::ConstTime { opcode: Opcode::ConstTime, imm: value }, ty)
    }

    /// Compute the bitwise complement of a value.
    pub fn not(&mut self, x: Value) -> (v: Value)
        requires
            ready(*old(self)),
            typed_value(old(self)@, x),
        ensures
            built(
                *old(self),
                *final(self),
                Inst(old(self)@.inst_bound() as u32),
                InstData::Unary { opcode: Opcode::Not, args: [x] },
                ty_of(old(self)@, x),
            ),
            v == Value(old(self)@.value_bound() as u32),
    {
        self.build_unary_same(Opcode::Not, x)
    }

    /// Compute the two's complement of a value.
    pub fn neg(&mut self, x: Value) -> (v: Value)
        requires
            ready(*old(self)),
            typed_value(old(self)@, x),
        ensures
            built(
                *old(self),
                *final(self),
                Inst(old(self)@.inst_bound() as u32),
                InstData::Unary { opcode: Opcode::Neg, args: [x] },
                ty_of(old(self)@, x),
            ),
            v == Value(old(self)@.value_bound() as u32),
    {
        self.build_unary_same(Opcode::Neg, x)
    }

    /// Sum two values.
    pub fn add(&mut self, x: Value, y: Value) -> (v: Value)
        requires
            ready(*old(self)),
            typed_value(old(self)@, x),
        ensures
            built(
                *old(self),
                *final(self),
                Inst(old(self)@.inst_bound() as u32),
                InstData::Binary { opcode: Opcode::Add, args: [x, y] },
                ty_of(old(self)@, x),
            ),
            v == Value(old(self)@.value_bound() as u32),
    {
        self.build_binary_same(Opcode::Add, x, y)
    }

    /// Subtract the second value from the first.
    pub fn sub(&mut self, x: Value, y: Value) -> (v: Value)
        requires
            ready(*old(self)),
            typed_value(old(self)@, x),
        ensures
            built(
                *old(self),
                *final(self),
                Inst(old(self)@.inst_bound() as u32),
                InstData::Binary { opcode: Opcode::Sub, args: [x, y] },
                ty_of(old(self)@, x),
            ),
            v == Value(old(self)@.value_bound() as u32),
    {
        self.build_binary_same(Opcode::Sub, x, y)
    }

    /// Compute the bitwise AND of two values.
    pub fn and(&mut self, x: Value, y: Value) -> (v: Value)
        requires
            ready(*old(self)),
            typed_value(old(self)@, x),
        ensures
            built(
                *old(self),
                *final(self),
                Inst(old(self)@.inst_bound() as u32),
                InstData::Binary { opcode: Opcode::And, args: [x, y] },
                ty_of(old(self)@, x),
            ),
            v == Value(old(self)@.value_bound() as u32),
    {
        self.build_binary_same(Opcode::And, x, y)
    }

    /// Compute the bitwise OR of two values.
    pub fn or(&mut self, x: Value, y: Value) -> (v: Value)
        requires
            ready(*old(self)),
            typed_value(old(self)@, x),
        ensures
            built(
                *old(self),
                *final(self),
                Inst(old(self)@.inst_bound() as u32),
                InstData::Binary { opcode: Opcode::Or, args: [x, y] },
                ty_of(old(self)@, x),
            ),
            v == Value(old(self)@.value_bound() as u32),
    {
        self.build_binary_same(Opcode::Or, x, y)
    }

    /// Compute the bitwise XOR of two values.
    pub fn xor(&mut self, x: Value, y: Value) -> (v: Value)
        requires
            ready(*old(self)),
            typed_value(old(self)@, x),
        ensures
            built(
                *old(self),
                *final(self),
                Inst(old(self)@.inst_bound() as u32),
                InstData::Binary { opcode: Opcode::Xor, args: [x, y] },
                ty_of(old(self)@, x),
            ),
            v == Value(old(self)@.value_bound() as u32),
    {
        self.build_binary_same(Opcode::Xor, x, y)
    }

    /// Multiply two signed values.
    pub fn smul(&mut self, x: Value, y: Value) -> (v: Value)
        requires
            ready(*old(self)),
            typed_value(old(self)@, x),
        ensures
            built(
                *old(self),
                *final(self),
                Inst(old(self)@.inst_bound() as u32),
                InstData::Binary { opcode: Opcode::Smul, args: [x, y] },
                ty_of(old(self)@, x),
            ),
            v == Value(old(self)@.value_bound() as u32),
    {
        self.build_binary_same(Opcode::Smul, x, y)
    }

    /// Divide two signed values.
    pub fn sdiv(&mut self, x: Value, y: Value) -> (v: Value)
        requires
            ready(*old(self)),
            typed_value(old(self)@, x),
        ensures
            built(
                *old(self),
                *final(self),
                Inst(old(self)@.inst_bound() as u32),
                InstData::Binary { opcode: Opcode::Sdiv, args: [x, y] },
                ty_of(old(self)@, x),
            ),
            v == Value(old(self)@.value_bound() as u32),
    {
        self.build_binary_same(Opcode::Sdiv, x, y)
    }

    /// Compute the signed modulo of two values.
    pub fn smod(&mut self, x: Value, y: Value) -> (v: Value)
        requires
            ready(*old(self)),
            typed_value(old(self)@, x),
        ensures
            built(
                *old(self),
                *final(self),
                Inst(old(self)@.inst_bound() as u32),
                InstData::Binary { opcode: Opcode::Smod, args: [x, y] },
                ty_of(old(self)@, x),
            ),
            v == Value(old(self)@.value_bound() as u32),
    {
        self.build_binary_same(Opcode::Smod, x, y)
    }

    /// Compute the signed remainder of two values.
    pub fn srem(&mut self, x: Value, y: Value) -> (v: Value)
        requires
            ready(*old(self)),
            typed_value(old(self)@, x),
        ensures
            built(
                *old(self),
                *final(self),
                Inst(old(self)@.inst_bound() as u32),
                InstData::Binary { opcode: Opcode::Srem, args: [x, y] },
                ty_of(old(self)@, x),
            ),
            v == Value(old(self)@.value_bound() as u32),
    {
        self.build_binary_same(Opcode::Srem, x, y)
    }

    /// Multiply two unsigned values.
    pub fn umul(&mut self, x: Value, y: Value) -> (v: Value)
        requires
            ready(*old(self)),
            typed_value(old(self)@, x),
        ensures
            built(
                *old(self),
                *final(self),
                Inst(old(self)@.inst_bound() as u32),
                InstData::Binary { opcode: Opcode::Umul, args: [x, y] },
                ty_of(old(self)@, x),
            ),
            v == Value(old(self)@.value_bound() as u32),
    {
        self.build_binary_same(Opcode::Umul, x, y)
    }

    /// Divide two unsigned values.
    pub fn udiv(&mut self, x: Value, y: Value) -> (v: Value)
        requires
            ready(*old(self)),
            typed_value(old(self)@, x),
        ensures
            built(
                *old(self),
                *final(self),
                Inst(old(self)@.inst_bound() as u32),
                InstData::Binary { opcode: Opcode::Udiv, args: [x, y] },
                ty_of(old(self)@, x),
            ),
            v == Value(old(self)@.value_bound() as u32),
    {
        self.build_binary_same(Opcode::Udiv, x, y)
    }

    /// Compute the unsigned modulo of two values.
    pub fn umod(&mut self, x: Value, y: Value) -> (v: Value)
        requires
            ready(*old(self)),
            typed_value(old(self)@, x),
        ensures
            built(
                *old(self),
                *final(self),
                Inst(old(self)@.inst_bound() as u32),
                InstData::Binary { opcode: Opcode::Umod, args: [x, y] },
                ty_of(old(self)@, x),
            ),
            v == Value(old(self)@.value_bound() as u32),
    {
        self.build_binary_same(Opcode::Umod, x, y)
    }

    /// Compute the unsigned remainder of two values.
    pub fn urem(&mut self, x: Value, y: Value) -> (v: Value)
        requires
            ready(*old(self)),
            typed_value(old(self)@, x),
        ensures
            built(
                *old(self),
                *final(self),
                Inst(old(self)@.inst_bound() as u32),
                InstData::Binary { opcode: Opcode::Urem, args: [x, y] },
                ty_of(old(self)@, x),
            ),
            v == Value(old(self)@.value_bound() as u32),
    {
        self.build_binary_same(Opcode::Urem, x, y)
    }

    /// Check two values for equality.
    pub fn eq(&mut self, x: Value, y: Value) -> (v: Value)
        requires
            ready(*old(self)),
        ensures
            built(
                *old(self),
                *final(self),
                Inst(old(self)@.inst_bound() as u32),
                InstData::Binary { opcode: Opcode::Eq, args: [x, y] },
                TypeKind::IntType(1),
            ),
            v == Value(old(self)@.value_bound() as u32),
    {
        self.build_compare(Opcode::Eq, x, y)
    }

    /// Check two values for inequality.
    pub fn neq(&mut self, x: Value, y: Value) -> (v: Value)
        requires
            ready(*old(self)),
        ensures
            built(
                *old(self),
                *final(self),
                Inst(old(self)@.inst_bound() as u32),
                InstData::Binary { opcode: Opcode::Neq, args: [x, y] },
                TypeKind::IntType(1),
            ),
            v == Value(old(self)@.value_bound() as u32),
    {
        self.build_compare(Opcode::Neq, x, y)
    }

    /// Check whether the first value is less than the second, as signed numbers.
    pub fn slt(&mut self, x: Value, y: Value) -> (v: Value)
        requires
            ready(*old(self)),
        ensures
            built(
                *old(self),
                *final(self),
                Inst(old(self)@.inst_bound() as u32),
                InstData::Binary { opcode: Opcode::Slt, args: [x, y] },
                TypeKind::IntType(1),
            ),
            v == Value(old(self)@.value_bound() as u32),
    {
        self.build_compare(Opcode::Slt, x, y)
    }

    /// Check whether the first value is greater than the second, as signed numbers.
    pub fn sgt(&mut self, x: Value, y: Value) -> (v: Value)
        requires
            ready(*old(self)),
        ensures
            built(
                *old(self),
                *final(self),
                Inst(old(self)@.inst_bound() as u32),
                InstData::Binary { opcode: Opcode::Sgt, args: [x, y] },
                TypeKind::IntType(1),
            ),
            v == Value(old(self)@.value_bound() as u32),
    {
        self.build_compare(Opcode::Sgt, x, y)
    }

    /// Check whether the first value is at most the second, as signed numbers.
    pub fn sle(&mut self, x: Value, y: Value) -> (v: Value)
        requires
            ready(*old(self)),
        ensures
            built(
                *old(self),
                *final(self),
                Inst(old(self)@.inst_bound() as u32),
                InstData::Binary { opcode: Opcode::Sle, args: [x, y] },
                TypeKind::IntType(1),
            ),
            v == Value(old(self)@.value_bound() as u32),
    {
        self.build_compare(Opcode::Sle, x, y)
    }

    /// Check whether the first value is at least the second, as signed numbers.
    pub fn sge(&mut self, x: Value, y: Value) -> (v: Value)
        requires
            ready(*old(self)),
        ensures
            built(
                *old(self),
                *final(self),
                Inst(old(self)@.inst_bound() as u32),
                InstData::Binary { opcode: Opcode::Sge, args: [x, y] },
                TypeKind::IntType(1),
            ),
            v == Value(old(self)@.value_bound() as u32),
    {
        self.build_compare(Opcode::Sge, x, y)
    }

    /// Check whether the first value is less than the second, as unsigned numbers.
    pub fn ult(&mut self, x: Value, y: Value) -> (v: Value)
        requires
            ready(*old(self)),
        ensures
            built(
                *old(self),
                *final(self),
                Inst(old(self)@.inst_bound() as u32),
                InstData::Binary { opcode: Opcode::Ult, args: [x, y] },
                TypeKind::IntType(1),
            ),
            v == Value(old(self)@.value_bound() as u32),
    {
        self.build_compare(Opcode::Ult, x, y)
    }

    /// Check whether the first value is greater than the second, as unsigned numbers.
    pub fn ugt(&mut self, x: Value, y: Value) -> (v: Value)
        requires
            ready(*old(self)),
        ensures
            built(
                *old(self),
                *final(self),
                Inst(old(self)@.inst_bound() as u32),
                InstData::Binary { opcode: Opcode::Ugt, args: [x, y] },
                TypeKind::IntType(1),
            ),
            v == Value(old(self)@.value_bound() as u32),
    {
        self.build_compare(Opcode::Ugt, x, y)
    }

    /// Check whether the first value is at most the second, as unsigned numbers.
    pub fn ule(&mut self, x: Value, y: Value) -> (v: Value)
        requires
            ready(*old(self)),
        ensures
            built(
                *old(self),
                *final(self),
                Inst(old(self)@.inst_bound() as u32),
                InstData::Binary { opcode: Opcode::Ule, args: [x, y] },
                TypeKind::IntType(1),
            ),
            v == Value(old(self)@.value_bound() as u32),
    {
        self.build_compare(Opcode::Ule, x, y)
    }

    /// Check whether the first value is at least the second, as unsigned numbers.
    pub fn uge(&mut self, x: Value, y: Value) -> (v: Value)
        requires
            ready(*old(self)),
        ensures
            built(
                *old(self),
                *final(self),
                Inst(old(self)@.inst_bound() as u32),
                InstData::Binary { opcode: Opcode::Uge, args: [x, y] },
                TypeKind::IntType(1),
            ),
            v == Value(old(self)@.value_bound() as u32),
    {
        self.build_compare(Opcode::Uge, x, y)
    }

    /// Allocate a signal initialized to a value.
    ///
    /// A value that already is a signal gives a signal of the same type.
    pub fn sig(&mut self, x: Value) -> (v: Value)
        requires
            ready(*old(self)),
            typed_value(old(self)@, x),
        ensures
            built(
                *old(self),
                *final(self),
                Inst(old(self)@.inst_bound() as u32),
                InstData::Unary { opcode: Opcode::Sig, args: [x] },
                if ty_of(old(self)@, x) is SignalType {
                    ty_of(old(self)@, x)
                } else {
                    TypeKind::SignalType(Box::new(ty_of(old(self)@, x)))
                },
            ),
            v == Value(old(self)@.value_bound() as u32),
    {
        let ty = self.unit().value_type(x);
        let ty = if ty.is_signal() {
            ty
        } else {
            signal_ty(ty)
        };
        self.build_value(InstData::Unary { opcode: Opcode::Sig, args: [x] }, ty)
    }

    /// Probe the current value of a signal.
    pub fn prb(&mut self, x: Value) -> (v: Value)
        requires
            ready(*old(self)),
            typed_value(old(self)@, x),
            ty_of(old(self)@, x) is SignalType,
            !(*ty_of(old(self)@, x)->SignalType_0 is VoidType),
        ensures
            built(
                *old(self),
                *final(self),
                Inst(old(self)@.inst_bound() as u32),
                InstData::Unary { opcode: Opcode::Prb, args: [x] },
                *ty_of(old(self)@, x)->SignalType_0,
            ),
            v == Value(old(self)@.value_bound() as u32),
    {
        let ty = self.unit().value_type(x);
        let inner = ty.unwrap_signal().duplicate();
        self.build_value(InstData::Unary { opcode: Opcode::Prb, args: [x] }, inner)
    }

    /// Drive a signal to a value after a delay.
    pub fn drv(&mut self, signal: Value, value: Value, delay: Value) -> (inst: Inst)
        requires
            ready(*old(self)),
        ensures
            built(
                *old(self),
                *final(self),
                inst,
                InstData::Ternary { opcode: Opcode::Drv, args: [signal, value, delay] },
                TypeKind::VoidType,
            ),
    {
        self.build_inst(InstData::Ternary { opcode: Opcode::Drv, args: [signal, value, delay] }, void_ty())
    }

    /// Drive a signal to a value after a delay, if a condition holds.
    pub fn drv_cond(&mut self, signal: Value, value: Value, delay: Value, cond: Value) -> (inst: Inst)
        requires
            ready(*old(self)),
        ensures
            built(
                *old(self),
                *final(self),
                inst,
                InstData::Quaternary { opcode: Opcode::DrvCond, args: [signal, value, delay, cond] },
                TypeKind::VoidType,
            ),
    {
        self.build_inst(
            InstData::Quaternary { opcode: Opcode::DrvCond, args: [signal, value, delay, cond] },
            void_ty(),
        )
    }

    /// Choose between values depending on a selector.
    pub fn mux(&mut self, choices: Value, sel: Value) -> (v: Value)
        requires
            ready(*old(self)),
            typed_value(old(self)@, choices),
            ty_of(old(self)@, choices) is ArrayType,
            !(*ty_of(old(self)@, choices)->ArrayType_1 is VoidType),
        ensures
            built(
                *old(self),
                *final(self),
                Inst(old(self)@.inst_bound() as u32),
                InstData::Binary { opcode: Opcode::Mux, args: [choices, sel] },
                *ty_of(old(self)@, choices)->ArrayType_1,
            ),
            v == Value(old(self)@.value_bound() as u32),
    {
        let ty = self.unit().value_type(choices);
        let elem = ty.unwrap_array().1.duplicate();
        self.build_value(InstData::Binary { opcode: Opcode::Mux, args: [choices, sel] }, elem)
    }

    /// Call a function.
    ///
    /// The call's value has the return type of the called function.
    pub fn call(&mut self, unit: ExtUnit, args: Vec<Value>) -> (v: Value)
        requires
            ready(*old(self)),
            (unit.0 as int) < old(self)@.spec_exts().len(),
            old(self)@.spec_exts()[unit.0 as int].sig@.retty is Some,
            args@.len() <= u16::MAX,
        ensures
            built(
                *old(self),
                *final(self),
                Inst(old(self)@.inst_bound() as u32),
                InstData::Call { opcode: Opcode::Call, unit, ins: args@.len() as u16, args },
                old(self)@.spec_exts()[unit.0 as int].sig@.retty->0,
            ),
            v == Value(old(self)@.value_bound() as u32),
    {
        let ty = self.unit().extern_sig(unit).return_type();
        let ins = args.len() as u16;
        let inst = self.build_inst(InstData::Call { opcode: Opcode::Call, unit, ins, args }, ty);
        proof { assert(self@.spec_result(inst) is Some); }
        self.unit().inst_result(inst)
    }

    /// Instantiate a process or entity.
    pub fn inst(&mut self, unit: ExtUnit, inputs: Vec<Value>, outputs: Vec<Value>) -> (inst: Inst)
        requires
            ready(*old(self)),
            inputs@.len() <= u16::MAX,
        ensures
            built(*old(self), *final(self), inst, final(self)@.spec_inst(inst)->0, TypeKind::VoidType),
            final(self)@.spec_inst(inst)->0 matches InstData::Call { opcode, unit: u, ins, args }
                && opcode == Opcode::Inst && u == unit && ins == inputs@.len() && args@ == inputs@ + outputs@,
    {
        let ins = inputs.len() as u16;
        let mut args = inputs;
        let mut outs = outputs;
        args.append(&mut outs);
        self.build_inst(InstData::Call { opcode: Opcode::Inst, unit, ins, args }, void_ty())
    }

    /// Halt execution of a process.
    pub fn halt(&mut self) -> (inst: Inst)
        requires
            ready(*old(self)),
        ensures
            built(*old(self), *final(self), inst, InstData::Nullary { opcode: Opcode::Halt }, TypeKind::VoidType),
    {
        self.build_inst(InstData::Nullary { opcode: Opcode::Halt }, void_ty())
    }

    /// Return from a function without a value.
    pub fn ret(&mut self) -> (inst: Inst)
        requires
            ready(*old(self)),
        ensures
            built(*old(self), *final(self), inst, InstData::Nullary { opcode: Opcode::Ret }, TypeKind::VoidType),
    {
        self.build_inst(InstData::Nullary { opcode: Opcode::Ret }, void_ty())
    }

    /// Return a value from a function.
    pub fn ret_value(&mut self, x: Value) -> (inst: Inst)
        requires
            ready(*old(self)),
        ensures
            built(
                *old(self),
                *final(self),
                inst,
                InstData::Unary { opcode: Opcode::RetValue, args: [x] },
                TypeKind::VoidType,
            ),
    {
        self.build_inst(InstData::Unary { opcode: Opcode::RetValue, args: [x] }, void_ty())
    }

    /// Select a value depending on the predecessor block control came from.
    pub fn phi(&mut self, args: Vec<Value>, bbs: Vec<Block>) -> (v: Value)
        requires
            ready(*old(self)),
            args@.len() > 0,
            args@.len() == bbs@.len(),
            typed_value(old(self)@, args@[0]),
        ensures
            built(
                *old(self),
                *final(self),
                Inst(old(self)@.inst_bound() as u32),
                InstData::Phi { opcode: Opcode::Phi, args, bbs },
                ty_of(old(self)@, args@[0]),
            ),
            v == Value(old(self)@.value_bound() as u32),
    {
        let ty = self.unit().value_type(args[0]);
        self.build_value(InstData::Phi { opcode: Opcode::Phi, args, bbs }, ty)
    }

    /// Transfer control to another block.
    pub fn br(&mut self, bb: Block) -> (inst: Inst)
        requires
            ready(*old(self)),
        ensures
            built(*old(self), *final(self), inst, InstData::Jump { opcode: Opcode::Br, bbs: [bb] }, TypeKind::VoidType),
    {
        self.build_inst(InstData::Jump { opcode: Opcode::Br, bbs: [bb] }, void_ty())
    }

    /// Transfer control to one of two blocks, depending on a condition.
    ///
    /// Control goes to `bb0` if the condition is false, and to `bb1` if it
    /// is true.
    pub fn br_cond(&mut self, x: Value, bb0: Block, bb1: Block) -> (inst: Inst)
        requires
            ready(*old(self)),
        ensures
            built(
                *old(self),
                *final(self),
                inst,
                InstData::Branch { opcode: Opcode::BrCond, args: [x], bbs: [bb0, bb1] },
                TypeKind::VoidType,
            ),
    {
        self.build_inst(InstData::Branch { opcode: Opcode::BrCond, args: [x], bbs: [bb0, bb1] }, void_ty())
    }

    /// Suspend a process until one of the observed signals changes.
    pub fn wait(&mut self, bb: Block, args: Vec<Value>) -> (inst: Inst)
        requires
            ready(*old(self)),
        ensures
            built(
                *old(self),
                *final(self),
                inst,
                InstData::Wait { opcode: Opcode::Wait, bbs: [bb], args },
                TypeKind::VoidType,
            ),
    {
        self.build_inst(InstData::Wait { opcode: Opcode::Wait, bbs: [bb], args }, void_ty())
    }

    /// Suspend a process until one of the observed signals changes or a
    /// time interval has passed.
    ///
    /// The time is the first argument of the instruction.
    pub fn wait_time(&mut self, bb: Block, time: Value, args: Vec<Value>) -> (inst: Inst)
        requires
            ready(*old(self)),
        ensures
            built(*old(self), *final(self), inst, final(self)@.spec_inst(inst)->0, TypeKind::VoidType),
            final(self)@.spec_inst(inst)->0 matches InstData::Wait { opcode, bbs, args: a }
                && opcode == Opcode::WaitTime && bbs == [bb] && a@ == seq![time] + args@,
    {
        let mut all = args;
        all.insert(0, time);
        self.build_inst(InstData::Wait { opcode: Opcode::WaitTime, bbs: [bb], args: all }, void_ty())
    }
}


/// `v` is an existing value with a type (possibly void).
pub open spec fn known_value(d: UnitData, v: Value) -> bool {
    &&& d.spec_value(v) is Some
    &&& !(d.spec_value(v)->0 is Invalid)
}

/// The type of a field extracted from a value of type `ty` at `imm`: a struct
/// field, or an array element, looking through a signal or pointer.
pub open spec fn ext_field_ty(ty: Type, imm: usize) -> Type {
    let inner = sigptr_inner(ty);
    unpacked_sigptr(
        ty,
        match inner {
            TypeKind::StructType(fields) => fields.seq()[imm as int],
            TypeKind::ArrayType(_, elem) => *elem,
            _ => inner,
        },
    )
}

/// A field can be extracted from a value of type `ty` at `imm`.
pub open spec fn ext_field_ok(ty: Type, imm: usize) -> bool {
    match sigptr_inner(ty) {
        TypeKind::StructType(fields) => imm < fields.seq().len(),
        TypeKind::ArrayType(_, _) => true,
        _ => false,
    }
}

/// The type of a slice of `len` elements or bits extracted from a value of
/// type `ty`, looking through a signal or pointer.
pub open spec fn ext_slice_ty(ty: Type, len: usize) -> Type {
    let inner = sigptr_inner(ty);
    unpacked_sigptr(
        ty,
        match inner {
            TypeKind::ArrayType(_, elem) => TypeKind::ArrayType(len, elem),
            _ => TypeKind::IntType(len),
        },
    )
}

/// A slice can be extracted from a value of type `ty`.
pub open spec fn ext_slice_ok(ty: Type) -> bool {
    sigptr_inner(ty) is ArrayType || sigptr_inner(ty) is IntType
}

/// The arguments of a register instruction built from a stored value and
/// its triggers.
pub open spec fn reg_args(x: Value, data: Seq<RegTrigger>) -> Seq<Value> {
    seq![x] + data.map_values(|t: RegTrigger| t.data) + data.map_values(|t: RegTrigger| t.trigger)
        + data.map_values(
        |t: RegTrigger|
            match t.gate {
                Some(g) => g,
                Option::None => Value(u32::MAX),
            },
    )
}

/// # More instruction construction
impl UnitBuilder {
    /// Give a value another name by copying it.
    pub fn alias(&mut self, x: Value) -> (v: Value)
        requires
            ready(*old(self)),
            typed_value(old(self)@, x),
        ensures
            built(
                *old(self),
                *final(self),
                Inst(old(self)@.inst_bound() as u32),
                InstData::Unary { opcode: Opcode::Alias, args: [x] },
                ty_of(old(self)@, x),
            ),
            v == Value(old(self)@.value_bound() as u32),
    {
        self.build_unary_same(Opcode::Alias, x)
    }

    /// An array of `imm` copies of a value.
    pub fn array_uniform(&mut self, imm: usize, x: Value) -> (v: Value)
        requires
            ready(*old(self)),
            known_value(old(self)@, x),
        ensures
            built(
                *old(self),
                *final(self),
                Inst(old(self)@.inst_bound() as u32),
                InstData::Array { opcode: Opcode::ArrayUniform, imms: [imm], args: [x] },
                TypeKind::ArrayType(imm, Box::new(ty_of(old(self)@, x))),
            ),
            v == Value(old(self)@.value_bound() as u32),
    {
        let elem = self.unit().value_type(x);
        let ty = array_ty(imm, elem);
        self.build_value(InstData::Array { opcode: Opcode::ArrayUniform, imms: [imm], args: [x] }, ty)
    }

    /// An array of the given values, which share the type of the first.
    pub fn array(&mut self, args: Vec<Value>) -> (v: Value)
        requires
            ready(*old(self)),
            args@.len() > 0,
            known_value(old(self)@, args@[0]),
        ensures
            built(
                *old(self),
                *final(self),
                Inst(old(self)@.inst_bound() as u32),
                InstData::Aggregate { opcode: Opcode::Array, args },
                TypeKind::ArrayType(args@.len() as usize, Box::new(ty_of(old(self)@, args@[0]))),
            ),
            v == Value(old(self)@.value_bound() as u32),
    {
        let elem = self.unit().value_type(args[0]);
        let ty = array_ty(args.len(), elem);
        self.build_value(InstData::Aggregate { opcode: Opcode::Array, args }, ty)
    }

    /// A struct of the given values, with their types as field types.
    pub fn strukt(&mut self, args: Vec<Value>) -> (v: Value)
        requires
            ready(*old(self)),
            forall|i: int| 0 <= i < args@.len() ==> #[trigger] known_value(old(self)@, args@[i]),
        ensures
            built(
                *old(self),
                *final(self),
                Inst(old(self)@.inst_bound() as u32),
                InstData::Aggregate { opcode: Opcode::Struct, args },
                ty_of(final(self)@, v),
            ),
            v == Value(old(self)@.value_bound() as u32),
            ty_of(final(self)@, v) is StructType,
            ty_of(final(self)@, v)->StructType_0.seq() == args@.map_values(|a: Value| ty_of(old(self)@, a)),
    {
        let mut tys: Vec<Type> = Vec::new();
        let mut i: usize = 0;
        while i < args.len()
            invariant
                i <= args@.len(),
                tys@.len() == i,
                forall|j: int| 0 <= j < args@.len() ==> #[trigger] known_value(self@, args@[j]),
                forall|j: int| 0 <= j < i ==> #[trigger] tys@[j] == ty_of(self@, args@[j]),
            decreases args@.len() - i,
        {
            assert(known_value(self@, args@[i as int]));
            let t = self.unit().value_type(args[i]);
            tys.push(t);
            i = i + 1;
        }
        assert(tys@ == args@.map_values(|a: Value| ty_of(self@, a)));
        let ty = struct_ty(tys);
        let ghost t = ty;
        let v = self.build_value(InstData::Aggregate { opcode: Opcode::Struct, args }, ty);
        assert(ty_of(self@, v) == t);
        v
    }

    /// Shift a value left by an amount, filling in from a hidden value.
    pub fn shl(&mut self, x: Value, y: Value, z: Value) -> (v: Value)
        requires
            ready(*old(self)),
            typed_value(old(self)@, x),
        ensures
            built(
                *old(self),
                *final(self),
                Inst(old(self)@.inst_bound() as u32),
                InstData::Ternary { opcode: Opcode::Shl, args: [x, y, z] },
                ty_of(old(self)@, x),
            ),
            v == Value(old(self)@.value_bound() as u32),
    {
        let ty = self.unit().value_type(x);
        self.build_value(InstData::Ternary { opcode: Opcode::Shl, args: [x, y, z] }, ty)
    }

    /// Shift a value right by an amount, filling in from a hidden value.
    pub fn shr(&mut self, x: Value, y: Value, z: Value) -> (v: Value)
        requires
            ready(*old(self)),
            typed_value(old(self)@, x),
        ensures
            built(
                *old(self),
                *final(self),
                Inst(old(self)@.inst_bound() as u32),
                InstData::Ternary { opcode: Opcode::Shr, args: [x, y, z] },
                ty_of(old(self)@, x),
            ),
            v == Value(old(self)@.value_bound() as u32),
    {
        let ty = self.unit().value_type(x);
        self.build_value(InstData::Ternary { opcode: Opcode::Shr, args: [x, y, z] }, ty)
    }

    /// A storage element that drives its value onto a signal when one of
    /// its triggers fires.
    pub fn reg(&mut self, x: Value, data: Vec<RegTrigger>) -> (inst: Inst)
        requires
            ready(*old(self)),
            3 * data@.len() + 1 <= usize::MAX,
        ensures
            built(
                *old(self),
                *final(self),
                inst,
                final(self)@.spec_inst(inst)->0,
                TypeKind::VoidType,
            ),
            final(self)@.spec_inst(inst)->0 matches InstData::Reg { opcode, args, modes }
                && opcode == Opcode::Reg
                && args@ == reg_args(x, data@)
                && modes@ == data@.map_values(|t: RegTrigger| t.mode),
    {
        let n = data.len();
        let mut datas: Vec<Value> = Vec::new();
        let mut trigs: Vec<Value> = Vec::new();
        let mut gates: Vec<Value> = Vec::new();
        let mut modes: Vec<RegMode> = Vec::new();
        let mut i: usize = 0;
        while i < n
            invariant
                n == data@.len(),
                i <= n,
                datas@ == data@.subrange(0, i as int).map_values(|t: RegTrigger| t.data),
                trigs@ == data@.subrange(0, i as int).map_values(|t: RegTrigger| t.trigger),
                gates@ == data@.subrange(0, i as int).map_values(
                    |t: RegTrigger|
                        match t.gate {
                            Some(g) => g,
                            Option::None => Value(u32::MAX),
                        },
                ),
                modes@ == data@.subrange(0, i as int).map_values(|t: RegTrigger| t.mode),
            decreases n - i,
        {
            let t = data[i];
            datas.push(t.data);
            trigs.push(t.trigger);
            let g = match t.gate {
                Some(g) => g,
                None => Value::invalid(),
            };
            gates.push(g);
            modes.push(t.mode);
            proof {
                let s0 = data@.subrange(0, i as int);
                let s1 = data@.subrange(0, i as int + 1);
                assert(s1 == s0.push(t));
            }
            i = i + 1;
        }
        proof {
            assert(data@.subrange(0, n as int) == data@);
        }
        let mut args: Vec<Value> = Vec::new();
        args.push(x);
        args.append(&mut datas);
        args.append(&mut trigs);
        args.append(&mut gates);
        self.build_inst(InstData::Reg { opcode: Opcode::Reg, args, modes }, void_ty())
    }

    /// Insert a field, element or bit into a struct, array or integer.
    pub fn ins_field(&mut self, x: Value, y: Value, imm: usize) -> (v: Value)
        requires
            ready(*old(self)),
            typed_value(old(self)@, x),
        ensures
            built(
                *old(self),
                *final(self),
                Inst(old(self)@.inst_bound() as u32),
                InstData::InsExt { opcode: Opcode::InsField, args: [x, y], imms: [imm, 0] },
                ty_of(old(self)@, x),
            ),
            v == Value(old(self)@.value_bound() as u32),
    {
        let ty = self.unit().value_type(x);
        self.build_value(InstData::InsExt { opcode: Opcode::InsField, args: [x, y], imms: [imm, 0] }, ty)
    }

    /// Insert a slice of elements or bits into an array or integer.
    pub fn ins_slice(&mut self, x: Value, y: Value, imm0: usize, imm1: usize) -> (v: Value)
        requires
            ready(*old(self)),
            typed_value(old(self)@, x),
        ensures
            built(
                *old(self),
                *final(self),
                Inst(old(self)@.inst_bound() as u32),
                InstData::InsExt { opcode: Opcode::InsSlice, args: [x, y], imms: [imm0, imm1] },
                ty_of(old(self)@, x),
            ),
            v == Value(old(self)@.value_bound() as u32),
    {
        let ty = self.unit().value_type(x);
        self.build_value(
            InstData::InsExt { opcode: Opcode::InsSlice, args: [x, y], imms: [imm0, imm1] },
            ty,
        )
    }

    /// Extract a field or element from a struct or array, or from a signal
    /// or pointer to one.
    pub fn ext_field(&mut self, x: Value, imm: usize) -> (v: Value)
        requires
            ready(*old(self)),
            known_value(old(self)@, x),
            ext_field_ok(ty_of(old(self)@, x), imm),
            !(ext_field_ty(ty_of(old(self)@, x), imm) is VoidType),
        ensures
            built(
                *old(self),
                *final(self),
                Inst(old(self)@.inst_bound() as u32),
                InstData::InsExt {
                    opcode: Opcode::ExtField,
                    args: [x, Value(u32::MAX)],
                    imms: [imm, 0],
                },
                ext_field_ty(ty_of(old(self)@, x), imm),
            ),
            v == Value(old(self)@.value_bound() as u32),
    {
        let ty = self.unit().value_type(x);
        let inner = unpack_sigptr(&ty);
        let field = if inner.is_struct() {
            let fields = inner.unwrap_struct();
            fields.get(imm).duplicate()
        } else {
            inner.unwrap_array().1.duplicate()
        };
        let rty = with_unpacked_sigptr(&ty, field);
        self.build_value(
            InstData::InsExt { opcode: Opcode::ExtField, args: [x, Value::invalid()], imms: [imm, 0] },
            rty,
        )
    }

    /// Extract a slice of `imm1` elements or bits starting at `imm0` from an
    /// array or integer, or from a signal or pointer to one.
    pub fn ext_slice(&mut self, x: Value, imm0: usize, imm1: usize) -> (v: Value)
        requires
            ready(*old(self)),
            known_value(old(self)@, x),
            ext_slice_ok(ty_of(old(self)@, x)),
        ensures
            built(
                *old(self),
                *final(self),
                Inst(old(self)@.inst_bound() as u32),
                InstData::InsExt {
                    opcode: Opcode::ExtSlice,
                    args: [x, Value(u32::MAX)],
                    imms: [imm0, imm1],
                },
                ext_slice_ty(ty_of(old(self)@, x), imm1),
            ),
            v == Value(old(self)@.value_bound() as u32),
    {
        let ty = self.unit().value_type(x);
        let inner = unpack_sigptr(&ty);
        let sliced = if inner.is_array() {
            array_ty(imm1, inner.unwrap_array().1.duplicate())
        } else {
            int_ty(imm1)
        };
        let rty = with_unpacked_sigptr(&ty, sliced);
        proof {
            assert(!(rty is VoidType));
        }
        self.build_value(
            InstData::InsExt {
                opcode: Opcode::ExtSlice,
                args: [x, Value::invalid()],
                imms: [imm0, imm1],
            },
            rty,
        )
    }

    /// Connect two signals.
    pub fn con(&mut self, x: Value, y: Value) -> (inst: Inst)
        requires
            ready(*old(self)),
        ensures
            built(
                *old(self),
                *final(self),
                inst,
                InstData::Binary { opcode: Opcode::Con, args: [x, y] },
                TypeKind::VoidType,
            ),
    {
        self.build_inst(InstData::Binary { opcode: Opcode::Con, args: [x, y] }, void_ty())
    }

    /// Delay a signal: `target` follows `source` after `delay`.
    pub fn del(&mut self, target: Value, source: Value, delay: Value) -> (inst: Inst)
        requires
            ready(*old(self)),
        ensures
            built(
                *old(self),
                *final(self),
                inst,
                InstData::Ternary { opcode: Opcode::Del, args: [target, source, delay] },
                TypeKind::VoidType,
            ),
    {
        self.build_inst(InstData::Ternary { opcode: Opcode::Del, args: [target, source, delay] }, void_ty())
    }

    /// Allocate memory initialized to a value, and yield a pointer to it.
    pub fn var(&mut self, x: Value) -> (v: Value)
        requires
            ready(*old(self)),
            known_value(old(self)@, x),
        ensures
            built(
                *old(self),
                *final(self),
                Inst(old(self)@.inst_bound() as u32),
                InstData::Unary { opcode: Opcode::Var, args: [x] },
                TypeKind::PointerType(Box::new(ty_of(old(self)@, x))),
            ),
            v == Value(old(self)@.value_bound() as u32),
    {
        let ty = pointer_ty(self.unit().value_type(x));
        self.build_value(InstData::Unary { opcode: Opcode::Var, args: [x] }, ty)
    }

    /// Load the value a pointer points to.
    pub fn ld(&mut self, x: Value) -> (v: Value)
        requires
            ready(*old(self)),
            known_value(old(self)@, x),
            ty_of(old(self)@, x) is PointerType,
            !(*ty_of(old(self)@, x)->PointerType_0 is VoidType),
        ensures
            built(
                *old(self),
                *final(self),
                Inst(old(self)@.inst_bound() as u32),
                InstData::Unary { opcode: Opcode::Ld, args: [x] },
                *ty_of(old(self)@, x)->PointerType_0,
            ),
            v == Value(old(self)@.value_bound() as u32),
    {
        let ty = self.unit().value_type(x);
        let inner = ty.unwrap_pointer().duplicate();
        self.build_value(InstData::Unary { opcode: Opcode::Ld, args: [x] }, inner)
    }

    /// Store a value where a pointer points.
    pub fn st(&mut self, x: Value, y: Value) -> (inst: Inst)
        requires
            ready(*old(self)),
        ensures
            built(
                *old(self),
                *final(self),
                inst,
                InstData::Binary { opcode: Opcode::St, args: [x, y] },
                TypeKind::VoidType,
            ),
    {
        self.build_inst(InstData::Binary { opcode: Opcode::St, args: [x, y] }, void_ty())
    }
}


/// `new` is `old` with at most the data of `inst` changed.
pub open spec fn inst_rewritten(old: UnitData, new: UnitData, inst: Inst) -> bool {
    &&& new.wf()
    &&& new.same_layout(old)
    &&& new.same_cfg(old)
    &&& new.inst_bound() == old.inst_bound()
    &&& new.value_bound() == old.value_bound()
    &&& new.spec_kind() == old.spec_kind()
    &&& new.spec_name() == old.spec_name()
    &&& new.spec_sig() == old.spec_sig()
    &&& new.spec_exts() == old.spec_exts()
    &&& new.spec_inst(inst) is Some <==> old.spec_inst(inst) is Some
    &&& forall|i: Inst| i != inst ==> #[trigger] new.spec_inst(i) == old.spec_inst(i)
    &&& forall|i: Inst| #[trigger] new.spec_result(i) == old.spec_result(i)
    &&& forall|v: Value| #[trigger] new.spec_value(v) == old.spec_value(v)
    &&& forall|v: Value| #[trigger] new.spec_value_name(v) == old.spec_value_name(v)
    &&& forall|a: Arg| #[trigger] new.spec_arg_value(a) == old.spec_arg_value(a)
}

/// `b` is `a` with the value `from` replaced by `to`.
pub open spec fn value_replaced(a: InstData, b: InstData, from: Value, to: Value) -> bool {
    &&& same_but_args(a, b)
    &&& b.spec_args() == replace_in(a.spec_args(), from, to)
}

/// `b` is `a` with the block `from` replaced by `to`.
pub open spec fn block_replaced(a: InstData, b: InstData, from: Block, to: Block) -> bool {
    &&& same_but_blocks(a, b)
    &&& b.spec_blocks() == replace_in(a.spec_blocks(), from, to)
}

/// The number of uses of `from` as an argument in the first `n`
/// instructions.
pub open spec fn value_use_count(d: UnitData, from: Value, n: int) -> nat
    decreases n,
{
    if n <= 0 {
        0
    } else {
        value_use_count(d, from, n - 1) + match d.spec_inst(Inst((n - 1) as u32)) {
            Some(data) => count_in(data.spec_args(), from),
            Option::None => 0,
        }
    }
}

/// The number of uses of the block `from` in the first `n` instructions.
pub open spec fn block_use_count(d: UnitData, from: Block, n: int) -> nat
    decreases n,
{
    if n <= 0 {
        0
    } else {
        block_use_count(d, from, n - 1) + match d.spec_inst(Inst((n - 1) as u32)) {
            Some(data) => count_in(data.spec_blocks(), from),
            Option::None => 0,
        }
    }
}

/// The instruction refers to the block `bb`.
pub open spec fn uses_block(d: UnitData, inst: Inst, bb: Block) -> bool {
    &&& d.spec_inst(inst) is Some
    &&& d.spec_inst(inst)->0.spec_blocks().contains(bb)
}

/// An element that does not occur is counted zero times.
pub proof fn lemma_count_absent<T>(s: Seq<T>, x: T)
    requires
        !s.contains(x),
    ensures
        count_in(s, x) == 0,
    decreases s.len(),
{
    if s.len() > 0 {
        assert(!s.drop_last().contains(x)) by {
            if s.drop_last().contains(x) {
                let j = choose|j: int| 0 <= j < s.drop_last().len() && s.drop_last()[j] == x;
                assert(s[j] == x);
            }
        }
        lemma_count_absent(s.drop_last(), x);
    }
}

/// No element is counted more often than the sequence is long.
pub proof fn lemma_count_bound<T>(s: Seq<T>, x: T)
    ensures
        count_in(s, x) <= s.len(),
    decreases s.len(),
{
    if s.len() > 0 {
        lemma_count_bound(s.drop_last(), x);
    }
}

impl UnitData {
    /// Fill the slot that `take_inst` emptied in `prev` with new data.
    fn put_inst(&mut self, inst: Inst, d: InstData, Ghost(prev): Ghost<UnitData>)
        requires
            prev.wf(),
            prev.spec_inst(inst) is Some,
            old(self).insts@ == prev.insts@.update(inst.0 as int, Option::None),
            old(self).results == prev.results,
            old(self).values == prev.values,
            old(self).value_names == prev.value_names,
            old(self).args == prev.args,
            old(self).sig == prev.sig,
            old(self).ext_units == prev.ext_units,
            old(self).blocks == prev.blocks,
            old(self).layout == prev.layout,
            old(self).kind == prev.kind,
            old(self).name == prev.name,
        ensures
            inst_rewritten(prev, *final(self), inst),
            final(self).spec_inst(inst) == Some(d),
    {
        let k = inst.0 as usize;
        self.insts.set(k, Some(d));
        proof {
            assert forall|b: u32, i: u32|
                self.layout.block_seq().contains(b) && #[trigger] self.layout.inst_seq(b).contains(i)
                    implies entry_at(self.insts@, i as int) is Some by {
                assert(entry_at(prev.insts@, i as int) is Some);
            }
            assert forall|i: Inst| #[trigger] self.inst_home(i) == prev.inst_home(i) by {}
            assert forall|bb: Block| #[trigger] self.inst_ids(bb) == prev.inst_ids(bb) by {}
            assert(self.same_layout(prev));
            assert forall|i: int| #[trigger] has_value(self.results@, i) implies {
                &&& ((self.results@[i]->0).0 as int) < self.values@.len()
                &&& is_result_of(self.values@[(self.results@[i]->0).0 as int], Inst(i as u32))
            } by {
                assert(has_value(prev.results@, i));
            }
            assert forall|a: int| #[trigger] has_value(self.args@, a) implies {
                &&& ((self.args@[a]->0).0 as int) < self.values@.len()
                &&& is_arg_value(self.values@[(self.args@[a]->0).0 as int], Arg(a as u32))
            } by {
                assert(has_value(prev.args@, a));
            }
            assert(self.tables_ok());
            assert(self.args_complete()) by {
                assert forall|k: int| 0 <= k < self.sig@.all_args().len() implies #[trigger] has_value(
                    self.args@,
                    self.sig@.all_args()[k].0 as int,
                ) by {
                    assert(has_value(prev.args@, prev.sig@.all_args()[k].0 as int));
                }
            }
        }
    }

    /// The data of an existing instruction, moved out of the table; the
    /// slot is empty until it is filled again.
    fn take_inst(&mut self, inst: Inst) -> (d: InstData)
        requires
            old(self).spec_inst(inst) is Some,
        ensures
            d == old(self).spec_inst(inst)->0,
            final(self).insts@ == old(self).insts@.update(inst.0 as int, Option::None),
            final(self).results == old(self).results,
            final(self).values == old(self).values,
            final(self).value_names == old(self).value_names,
            final(self).args == old(self).args,
            final(self).sig == old(self).sig,
            final(self).ext_units == old(self).ext_units,
            final(self).blocks == old(self).blocks,
            final(self).layout == old(self).layout,
            final(self).kind == old(self).kind,
            final(self).name == old(self).name,
    {
        let k = inst.0 as usize;
        self.insts.push(None);
        let slot = self.insts.swap_remove(k);
        proof {
            assert(self.insts@ =~= old(self).insts@.update(k as int, Option::None));
        }
        slot.unwrap()
    }

    /// Replace the uses of `from` by `to` in one instruction.
    fn replace_value_at(&mut self, inst: Inst, from: Value, to: Value) -> (count: usize)
        requires
            old(self).wf(),
            old(self).spec_inst(inst) is Some,
        ensures
            inst_rewritten(*old(self), *final(self), inst),
            value_replaced(old(self).spec_inst(inst)->0, final(self).spec_inst(inst)->0, from, to),
            count == count_in(old(self).spec_inst(inst)->0.spec_args(), from),
    {
        let ghost prev = *self;
        let mut d = self.take_inst(inst);
        let count = d.replace_value(from, to);
        self.put_inst(inst, d, Ghost(prev));
        count
    }
}


impl UnitData {
    /// Replace the uses of the block `from` by `to` in one instruction.
    fn replace_block_at(&mut self, inst: Inst, from: Block, to: Block) -> (count: usize)
        requires
            old(self).wf(),
            old(self).spec_inst(inst) is Some,
        ensures
            inst_rewritten(*old(self), *final(self), inst),
            block_replaced(old(self).spec_inst(inst)->0, final(self).spec_inst(inst)->0, from, to),
            count == count_in(old(self).spec_inst(inst)->0.spec_blocks(), from),
    {
        let ghost prev = *self;
        let mut d = self.take_inst(inst);
        let count = d.replace_block(from, to);
        self.put_inst(inst, d, Ghost(prev));
        count
    }

    /// Remove the uses of a block from one instruction.
    fn remove_block_at(&mut self, inst: Inst, bb: Block) -> (count: usize)
        requires
            old(self).wf(),
            old(self).spec_inst(inst) is Some,
            phi_shape_ok(old(self).spec_inst(inst)->0),
        ensures
            inst_rewritten(*old(self), *final(self), inst),
            block_removed(old(self).spec_inst(inst)->0, final(self).spec_inst(inst)->0, bb, count as nat),
    {
        let ghost prev = *self;
        let mut d = self.take_inst(inst);
        let count = d.remove_block(bb);
        self.put_inst(inst, d, Ghost(prev));
        count
    }
}

/// # Rewriting uses
impl UnitBuilder {
    /// Replace the uses of a value by another within one instruction, and
    /// return how many uses were replaced.
    pub fn replace_value_within_inst(&mut self, from: Value, to: Value, inst: Inst) -> (count: usize)
        requires
            old(self)@.wf(),
            old(self)@.spec_inst(inst) is Some,
        ensures
            inst_rewritten(old(self)@, final(self)@, inst),
            value_replaced(old(self)@.spec_inst(inst)->0, final(self)@.spec_inst(inst)->0, from, to),
            count == count_in(old(self)@.spec_inst(inst)->0.spec_args(), from),
            final(self).spec_pos() == old(self).spec_pos(),
            final(self).spec_id() == old(self).spec_id(),
    {
        self.data.replace_value_at(inst, from, to)
    }

    /// Replace every use of a value by another, and return how many uses
    /// were replaced.
    pub fn replace_use(&mut self, from: Value, to: Value) -> (count: usize)
        requires
            old(self)@.wf(),
            value_use_count(old(self)@, from, old(self)@.inst_bound() as int) <= usize::MAX,
        ensures
            final(self)@.wf(),
            final(self)@.same_layout(old(self)@),
            final(self)@.same_cfg(old(self)@),
            final(self)@.inst_bound() == old(self)@.inst_bound(),
            final(self)@.value_bound() == old(self)@.value_bound(),
            final(self)@.spec_kind() == old(self)@.spec_kind(),
            final(self)@.spec_name() == old(self)@.spec_name(),
            final(self)@.spec_sig() == old(self)@.spec_sig(),
            final(self)@.spec_exts() == old(self)@.spec_exts(),
            forall|i: Inst| #[trigger] final(self)@.spec_result(i) == old(self)@.spec_result(i),
            forall|v: Value| #[trigger] final(self)@.spec_value(v) == old(self)@.spec_value(v),
            forall|v: Value| #[trigger] final(self)@.spec_value_name(v) == old(self)@.spec_value_name(v),
            forall|a: Arg| #[trigger] final(self)@.spec_arg_value(a) == old(self)@.spec_arg_value(a),
            uses_replaced(old(self)@, final(self)@, from, to),
            count == value_use_count(old(self)@, from, old(self)@.inst_bound() as int),
            final(self).spec_pos() == old(self).spec_pos(),
            final(self).spec_id() == old(self).spec_id(),
    {
        let ghost d0 = self@;
        let n = self.data.insts.len();
        let mut count: usize = 0;
        let mut k: usize = 0;
        while k < n
            invariant
                n == d0.inst_bound(),
                k <= n,
                value_use_count(d0, from, n as int) <= usize::MAX,
                self@.wf(),
                self@.same_layout(d0),
                self@.same_cfg(d0),
                self@.inst_bound() == d0.inst_bound(),
                self@.value_bound() == d0.value_bound(),
                self@.spec_kind() == d0.spec_kind(),
                self@.spec_name() == d0.spec_name(),
                self@.spec_sig() == d0.spec_sig(),
                self@.spec_exts() == d0.spec_exts(),
                forall|i: Inst| #[trigger] self@.spec_result(i) == d0.spec_result(i),
                forall|v: Value| #[trigger] self@.spec_value(v) == d0.spec_value(v),
                forall|v: Value| #[trigger] self@.spec_value_name(v) == d0.spec_value_name(v),
                forall|a: Arg| #[trigger] self@.spec_arg_value(a) == d0.spec_arg_value(a),
                forall|i: Inst| (i.0 as int) >= k || !d0.reads_value(i, from) ==> #[trigger] self@.spec_inst(i)
                    == d0.spec_inst(i),
                forall|i: Inst| (i.0 as int) < k && #[trigger] d0.reads_value(i, from) ==> {
                    &&& self@.spec_inst(i) is Some
                    &&& value_replaced(d0.spec_inst(i)->0, self@.spec_inst(i)->0, from, to)
                },
                count == value_use_count(d0, from, k as int),
                self.spec_pos() == old(self).spec_pos(),
                self.spec_id() == old(self).spec_id(),
            decreases n - k,
        {
            let inst = Inst(k as u32);
            proof {
                lemma_use_count_mono(d0, from, k as int + 1, n as int);
            }
            let reads = match &self.data.insts[k] {
                Some(data) => inst_reads(data, from),
                None => false,
            };
            assert(self@.spec_inst(inst) == d0.spec_inst(inst));
            if reads {
                let ghost before = self@;
                let c = self.data.replace_value_at(inst, from, to);
                count = count + c;
                proof {
                    assert forall|i: Inst| (i.0 as int) >= k + 1 || !d0.reads_value(i, from) implies #[trigger] self@.spec_inst(i)
                        == d0.spec_inst(i) by {
                        if i != inst {
                            assert(before.spec_inst(i) == self@.spec_inst(i));
                        }
                    }
                    assert forall|i: Inst| (i.0 as int) < k + 1 && #[trigger] d0.reads_value(i, from) implies {
                        &&& self@.spec_inst(i) is Some
                        &&& value_replaced(d0.spec_inst(i)->0, self@.spec_inst(i)->0, from, to)
                    } by {
                        if i != inst {
                            assert(before.spec_inst(i) == self@.spec_inst(i));
                        }
                    }
                }
            } else {
                proof {
                    match d0.spec_inst(inst) {
                        Some(data) => lemma_count_absent(data.spec_args(), from),
                        Option::None => {},
                    }
                }
            }
            k = k + 1;
        }
        count
    }

    /// Replace the uses of a block by another within one instruction, and
    /// return how many uses were replaced.
    pub fn replace_block_within_inst(&mut self, from: Block, to: Block, inst: Inst) -> (count: usize)
        requires
            old(self)@.wf(),
            old(self)@.spec_inst(inst) is Some,
        ensures
            inst_rewritten(old(self)@, final(self)@, inst),
            block_replaced(old(self)@.spec_inst(inst)->0, final(self)@.spec_inst(inst)->0, from, to),
            count == count_in(old(self)@.spec_inst(inst)->0.spec_blocks(), from),
            final(self).spec_pos() == old(self).spec_pos(),
            final(self).spec_id() == old(self).spec_id(),
    {
        self.data.replace_block_at(inst, from, to)
    }

    /// Remove the uses of a block from one instruction: a phi drops its
    /// entries for the block, any other instruction refers to the invalid
    /// block in its place. Returns how many uses were removed.
    pub fn remove_block_from_inst(&mut self, bb: Block, inst: Inst) -> (count: usize)
        requires
            old(self)@.wf(),
            old(self)@.spec_inst(inst) is Some,
            phi_shape_ok(old(self)@.spec_inst(inst)->0),
        ensures
            inst_rewritten(old(self)@, final(self)@, inst),
            block_removed(old(self)@.spec_inst(inst)->0, final(self)@.spec_inst(inst)->0, bb, count as nat),
            final(self).spec_pos() == old(self).spec_pos(),
            final(self).spec_id() == old(self).spec_id(),
    {
        self.data.remove_block_at(inst, bb)
    }
}

/// Counting uses over more instructions never gives fewer.
pub proof fn lemma_use_count_mono(d: UnitData, from: Value, m: int, n: int)
    requires
        m <= n,
    ensures
        value_use_count(d, from, m) <= value_use_count(d, from, n),
    decreases n - m,
{
    if m < n {
        lemma_use_count_mono(d, from, m, n - 1);
    }
}

/// Counting block uses over more instructions never gives fewer.
pub proof fn lemma_block_count_mono(d: UnitData, from: Block, m: int, n: int)
    requires
        m <= n,
    ensures
        block_use_count(d, from, m) <= block_use_count(d, from, n),
    decreases n - m,
{
    if m < n {
        lemma_block_count_mono(d, from, m, n - 1);
    }
}


/// The instruction refers to the block `bb`.
fn inst_uses_block(data: &InstData, bb: Block) -> (b: bool)
    ensures
        b == data.spec_blocks().contains(bb),
{
    let bbs = data.blocks();
    let mut k: usize = 0;
    while k < bbs.len()
        invariant
            k <= bbs@.len(),
            bbs@ == data.spec_blocks(),
            forall|j: int| 0 <= j < k ==> bbs@[j] != bb,
        decreases bbs@.len() - k,
    {
        if bbs[k] == bb {
            return true;
        }
        k = k + 1;
    }
    false
}

/// Everything but the instruction data is the same in both units.
pub open spec fn only_insts_changed(new: UnitData, old: UnitData) -> bool {
    &&& new.wf()
    &&& new.same_layout(old)
    &&& new.same_cfg(old)
    &&& new.inst_bound() == old.inst_bound()
    &&& new.value_bound() == old.value_bound()
    &&& new.spec_kind() == old.spec_kind()
    &&& new.spec_name() == old.spec_name()
    &&& new.spec_sig() == old.spec_sig()
    &&& new.spec_exts() == old.spec_exts()
    &&& forall|i: Inst| #[trigger] new.spec_result(i) == old.spec_result(i)
    &&& forall|v: Value| #[trigger] new.spec_value(v) == old.spec_value(v)
    &&& forall|v: Value| #[trigger] new.spec_value_name(v) == old.spec_value_name(v)
    &&& forall|a: Arg| #[trigger] new.spec_arg_value(a) == old.spec_arg_value(a)
}

/// # Rewriting block uses
impl UnitBuilder {
    /// Replace every use of a block by another, and return how many uses
    /// were replaced.
    pub fn replace_block_use(&mut self, from: Block, to: Block) -> (count: usize)
        requires
            old(self)@.wf(),
            block_use_count(old(self)@, from, old(self)@.inst_bound() as int) <= usize::MAX,
        ensures
            only_insts_changed(final(self)@, old(self)@),
            forall|i: Inst| !uses_block(old(self)@, i, from) ==> #[trigger] final(self)@.spec_inst(i)
                == old(self)@.spec_inst(i),
            forall|i: Inst| #[trigger] uses_block(old(self)@, i, from) ==> {
                &&& final(self)@.spec_inst(i) is Some
                &&& block_replaced(old(self)@.spec_inst(i)->0, final(self)@.spec_inst(i)->0, from, to)
            },
            count == block_use_count(old(self)@, from, old(self)@.inst_bound() as int),
            final(self).spec_pos() == old(self).spec_pos(),
            final(self).spec_id() == old(self).spec_id(),
    {
        let ghost d0 = self@;
        let n = self.data.insts.len();
        let mut count: usize = 0;
        let mut k: usize = 0;
        while k < n
            invariant
                n == d0.inst_bound(),
                k <= n,
                block_use_count(d0, from, n as int) <= usize::MAX,
                only_insts_changed(self@, d0),
                forall|i: Inst| (i.0 as int) >= k || !uses_block(d0, i, from) ==> #[trigger] self@.spec_inst(i)
                    == d0.spec_inst(i),
                forall|i: Inst| (i.0 as int) < k && #[trigger] uses_block(d0, i, from) ==> {
                    &&& self@.spec_inst(i) is Some
                    &&& block_replaced(d0.spec_inst(i)->0, self@.spec_inst(i)->0, from, to)
                },
                count == block_use_count(d0, from, k as int),
                self.spec_pos() == old(self).spec_pos(),
                self.spec_id() == old(self).spec_id(),
            decreases n - k,
        {
            let inst = Inst(k as u32);
            proof {
                lemma_block_count_mono(d0, from, k as int + 1, n as int);
            }
            let uses = match &self.data.insts[k] {
                Some(data) => inst_uses_block(data, from),
                None => false,
            };
            assert(self@.spec_inst(inst) == d0.spec_inst(inst));
            if uses {
                let ghost before = self@;
                let c = self.data.replace_block_at(inst, from, to);
                count = count + c;
                proof {
                    assert forall|i: Inst| (i.0 as int) >= k + 1 || !uses_block(d0, i, from) implies #[trigger] self@.spec_inst(i)
                        == d0.spec_inst(i) by {
                        if i != inst {
                            assert(before.spec_inst(i) == self@.spec_inst(i));
                        }
                    }
                    assert forall|i: Inst| (i.0 as int) < k + 1 && #[trigger] uses_block(d0, i, from) implies {
                        &&& self@.spec_inst(i) is Some
                        &&& block_replaced(d0.spec_inst(i)->0, self@.spec_inst(i)->0, from, to)
                    } by {
                        if i != inst {
                            assert(before.spec_inst(i) == self@.spec_inst(i));
                        }
                    }
                }
            } else {
                proof {
                    match d0.spec_inst(inst) {
                        Some(data) => lemma_count_absent(data.spec_blocks(), from),
                        Option::None => {},
                    }
                }
            }
            k = k + 1;
        }
        count
    }

    /// Remove every use of a block: phis drop their entries for the block,
    /// other instructions refer to the invalid block in its place. Returns
    /// how many uses were removed.
    pub fn remove_block_use(&mut self, bb: Block) -> (count: usize)
        requires
            old(self)@.wf(),
            removal_total(old(self)@, bb, old(self)@.inst_bound() as int) <= usize::MAX,
            forall|i: Inst| #[trigger] uses_block(old(self)@, i, bb) ==> phi_shape_ok(old(self)@.spec_inst(i)->0),
        ensures
            only_insts_changed(final(self)@, old(self)@),
            forall|i: Inst| !uses_block(old(self)@, i, bb) ==> #[trigger] final(self)@.spec_inst(i)
                == old(self)@.spec_inst(i),
            forall|i: Inst| #[trigger] uses_block(old(self)@, i, bb) ==> {
                &&& final(self)@.spec_inst(i) is Some
                &&& block_removed(
                    old(self)@.spec_inst(i)->0,
                    final(self)@.spec_inst(i)->0,
                    bb,
                    removal_count(old(self)@.spec_inst(i)->0, bb),
                )
            },
            count == removal_total(old(self)@, bb, old(self)@.inst_bound() as int),
            final(self).spec_pos() == old(self).spec_pos(),
            final(self).spec_id() == old(self).spec_id(),
    {
        let ghost d0 = self@;
        let n = self.data.insts.len();
        let mut count: usize = 0;
        let mut k: usize = 0;
        while k < n
            invariant
                n == d0.inst_bound(),
                k <= n,
                count == removal_total(d0, bb, k as int),
                removal_total(d0, bb, n as int) <= usize::MAX,
                forall|i: Inst| #[trigger] uses_block(d0, i, bb) ==> phi_shape_ok(d0.spec_inst(i)->0),
                only_insts_changed(self@, d0),
                forall|i: Inst| (i.0 as int) >= k || !uses_block(d0, i, bb) ==> #[trigger] self@.spec_inst(i)
                    == d0.spec_inst(i),
                forall|i: Inst| (i.0 as int) < k && #[trigger] uses_block(d0, i, bb) ==> {
                    &&& self@.spec_inst(i) is Some
                    &&& block_removed(d0.spec_inst(i)->0, self@.spec_inst(i)->0, bb, removal_count(d0.spec_inst(i)->0, bb))
                },
                self.spec_pos() == old(self).spec_pos(),
                self.spec_id() == old(self).spec_id(),
            decreases n - k,
        {
            let inst = Inst(k as u32);
            proof {
                lemma_removal_total_mono(d0, bb, k as int + 1, n as int);
            }
            let uses = match &self.data.insts[k] {
                Some(data) => inst_uses_block(data, bb),
                None => false,
            };
            assert(self@.spec_inst(inst) == d0.spec_inst(inst));
            if uses {
                let ghost before = self@;
                let c = self.data.remove_block_at(inst, bb);
                count = count + c;
                proof {
                    assert forall|i: Inst| (i.0 as int) >= k + 1 || !uses_block(d0, i, bb) implies #[trigger] self@.spec_inst(i)
                        == d0.spec_inst(i) by {
                        if i != inst {
                            assert(before.spec_inst(i) == self@.spec_inst(i));
                        }
                    }
                    assert forall|i: Inst| (i.0 as int) < k + 1 && #[trigger] uses_block(d0, i, bb) implies {
                        &&& self@.spec_inst(i) is Some
                        &&& block_removed(d0.spec_inst(i)->0, self@.spec_inst(i)->0, bb, removal_count(d0.spec_inst(i)->0, bb))
                    } by {
                        if i != inst {
                            assert(before.spec_inst(i) == self@.spec_inst(i));
                        }
                    }
                }
            }
            k = k + 1;
        }
        count
    }
}

/// How many uses of `bb` removing the block from `data` removes.
pub open spec fn removal_count(data: InstData, bb: Block) -> nat {
    match data {
        InstData::Phi { args, bbs, .. } => phi_drop(bbs@, args@, bb, 0, bbs@.len() as int).2,
        _ => count_in(data.spec_blocks(), bb),
    }
}

/// How many uses of `bb` removing the block from the first `n` instructions
/// removes.
pub open spec fn removal_total(d: UnitData, bb: Block, n: int) -> nat
    decreases n,
{
    if n <= 0 {
        0
    } else {
        removal_total(d, bb, n - 1) + if uses_block(d, Inst((n - 1) as u32), bb) {
            removal_count(d.spec_inst(Inst((n - 1) as u32))->0, bb)
        } else {
            0
        }
    }
}

/// Summing removals over more instructions never gives less.
pub proof fn lemma_removal_total_mono(d: UnitData, bb: Block, m: int, n: int)
    requires
        m <= n,
    ensures
        removal_total(d, bb, m) <= removal_total(d, bb, n),
    decreases n - m,
{
    if m < n {
        lemma_removal_total_mono(d, bb, m, n - 1);
    }
}


/// `new` is `old` with every use of `bb` removed from the instructions that
/// use it.
pub open spec fn detached(old: UnitData, new: UnitData, bb: Block) -> bool {
    &&& only_insts_changed(new, old)
    &&& forall|i: Inst| !uses_block(old, i, bb) ==> #[trigger] new.spec_inst(i) == old.spec_inst(i)
    &&& forall|i: Inst| #[trigger] uses_block(old, i, bb) ==> {
        &&& new.spec_inst(i) is Some
        &&& block_removed(old.spec_inst(i)->0, new.spec_inst(i)->0, bb, removal_count(old.spec_inst(i)->0, bb))
    }
}

/// `b` is `a` with every argument in `dead` replaced by the invalid value.
pub open spec fn args_killed(a: InstData, b: InstData, dead: Set<Value>) -> bool {
    &&& same_but_args(a, b)
    &&& b.spec_args() == a.spec_args().map_values(|x: Value| if dead.contains(x) { Value(u32::MAX) } else { x })
}

/// The results of the instructions of `bb`.
pub open spec fn block_results(d: UnitData, bb: Block) -> Set<Value> {
    Set::new(|v: Value| exists|k: int| 0 <= k < d.inst_ids(bb).len() && d.spec_result(Inst(#[trigger] d.inst_ids(bb)[k])) == Some(v))
}

/// The results of the first `n` of the given instructions.
pub open spec fn results_of(d: UnitData, insts: Seq<Inst>, n: int) -> Set<Value> {
    Set::new(|v: Value| exists|k: int| 0 <= k < n && d.spec_result(#[trigger] insts[k]) == Some(v))
}

/// Instruction formats agree step by step.
proof fn lemma_same_but_args_trans(a: InstData, b: InstData, c: InstData)
    requires
        same_but_args(a, b),
        same_but_args(b, c),
    ensures
        same_but_args(a, c),
{
}

/// Every format agrees with itself.
proof fn lemma_same_but_args_refl(a: InstData)
    ensures
        same_but_args(a, a),
{
}

impl UnitData {
    /// Drop the data of a block that is no longer in the layout.
    fn drop_block_data(&mut self, bb: Block)
        requires
            old(self).wf(),
            !old(self).block_ids().contains(bb.0),
            (bb.0 as int) < old(self).block_bound(),
        ensures
            final(self).wf(),
            final(self).spec_block(bb) is None,
            forall|b: Block| b != bb ==> #[trigger] final(self).spec_block(b) == old(self).spec_block(b),
            final(self).block_bound() == old(self).block_bound(),
            final(self).same_dfg(*old(self)),
            final(self).same_layout(*old(self)),
    {
        let ghost prev = *self;
        self.blocks.set(bb.0 as usize, None);
        proof {
            assert forall|b: u32| #[trigger] self.layout.block_seq().contains(b) implies entry_at(self.blocks@, b as int) is Some by {
                assert(entry_at(prev.blocks@, b as int) is Some);
                assert(b != bb.0);
            }
            assert forall|i: Inst| #[trigger] self.inst_home(i) == prev.inst_home(i) by {}
            assert forall|b: Block| #[trigger] self.inst_ids(b) == prev.inst_ids(b) by {}
            assert forall|i: int| #[trigger] has_value(self.results@, i) implies {
                &&& ((self.results@[i]->0).0 as int) < self.values@.len()
                &&& is_result_of(self.values@[(self.results@[i]->0).0 as int], Inst(i as u32))
            } by {
                assert(has_value(prev.results@, i));
            }
            assert forall|a: int| #[trigger] has_value(self.args@, a) implies {
                &&& ((self.args@[a]->0).0 as int) < self.values@.len()
                &&& is_arg_value(self.values@[(self.args@[a]->0).0 as int], Arg(a as u32))
            } by {
                assert(has_value(prev.args@, a));
            }
            assert(self.args_complete()) by {
                assert forall|k: int| 0 <= k < self.sig@.all_args().len() implies #[trigger] has_value(
                    self.args@,
                    self.sig@.all_args()[k].0 as int,
                ) by {
                    assert(has_value(prev.args@, prev.sig@.all_args()[k].0 as int));
                }
            }
        }
    }
}

impl UnitBuilder {
    /// Replace every use of a value by another.
    fn redirect_uses(&mut self, from: Value, to: Value)
        requires
            old(self)@.wf(),
        ensures
            only_insts_changed(final(self)@, old(self)@),
            forall|i: Inst| !old(self)@.reads_value(i, from) ==> #[trigger] final(self)@.spec_inst(i)
                == old(self)@.spec_inst(i),
            forall|i: Inst| #[trigger] old(self)@.reads_value(i, from) ==> {
                &&& final(self)@.spec_inst(i) is Some
                &&& value_replaced(old(self)@.spec_inst(i)->0, final(self)@.spec_inst(i)->0, from, to)
            },
            final(self).spec_pos() == old(self).spec_pos(),
            final(self).spec_id() == old(self).spec_id(),
    {
        let ghost d0 = self@;
        let n = self.data.insts.len();
        let mut k: usize = 0;
        while k < n
            invariant
                n == d0.inst_bound(),
                k <= n,
                only_insts_changed(self@, d0),
                forall|i: Inst| (i.0 as int) >= k || !d0.reads_value(i, from) ==> #[trigger] self@.spec_inst(i)
                    == d0.spec_inst(i),
                forall|i: Inst| (i.0 as int) < k && #[trigger] d0.reads_value(i, from) ==> {
                    &&& self@.spec_inst(i) is Some
                    &&& value_replaced(d0.spec_inst(i)->0, self@.spec_inst(i)->0, from, to)
                },
                self.spec_pos() == old(self).spec_pos(),
                self.spec_id() == old(self).spec_id(),
            decreases n - k,
        {
            let inst = Inst(k as u32);
            let reads = match &self.data.insts[k] {
                Some(data) => inst_reads(data, from),
                None => false,
            };
            assert(self@.spec_inst(inst) == d0.spec_inst(inst));
            if reads {
                let ghost before = self@;
                self.data.replace_value_at(inst, from, to);
                proof {
                    assert forall|i: Inst| (i.0 as int) >= k + 1 || !d0.reads_value(i, from) implies #[trigger] self@.spec_inst(i)
                        == d0.spec_inst(i) by {
                        if i != inst {
                            assert(before.spec_inst(i) == self@.spec_inst(i));
                        }
                    }
                    assert forall|i: Inst| (i.0 as int) < k + 1 && #[trigger] d0.reads_value(i, from) implies {
                        &&& self@.spec_inst(i) is Some
                        &&& value_replaced(d0.spec_inst(i)->0, self@.spec_inst(i)->0, from, to)
                    } by {
                        if i != inst {
                            assert(before.spec_inst(i) == self@.spec_inst(i));
                        }
                    }
                }
            }
            k = k + 1;
        }
    }

    /// Remove every use of a block.
    fn detach_block_uses(&mut self, bb: Block)
        requires
            old(self)@.wf(),
            forall|i: Inst| #[trigger] uses_block(old(self)@, i, bb) ==> phi_shape_ok(old(self)@.spec_inst(i)->0),
        ensures
            detached(old(self)@, final(self)@, bb),
            final(self).spec_pos() == old(self).spec_pos(),
            final(self).spec_id() == old(self).spec_id(),
    {
        let ghost d0 = self@;
        let n = self.data.insts.len();
        let mut k: usize = 0;
        while k < n
            invariant
                n == d0.inst_bound(),
                k <= n,
                forall|i: Inst| #[trigger] uses_block(d0, i, bb) ==> phi_shape_ok(d0.spec_inst(i)->0),
                only_insts_changed(self@, d0),
                forall|i: Inst| (i.0 as int) >= k || !uses_block(d0, i, bb) ==> #[trigger] self@.spec_inst(i)
                    == d0.spec_inst(i),
                forall|i: Inst| (i.0 as int) < k && #[trigger] uses_block(d0, i, bb) ==> {
                    &&& self@.spec_inst(i) is Some
                    &&& block_removed(d0.spec_inst(i)->0, self@.spec_inst(i)->0, bb, removal_count(d0.spec_inst(i)->0, bb))
                },
                self.spec_pos() == old(self).spec_pos(),
                self.spec_id() == old(self).spec_id(),
            decreases n - k,
        {
            let inst = Inst(k as u32);
            let uses = match &self.data.insts[k] {
                Some(data) => inst_uses_block(data, bb),
                None => false,
            };
            assert(self@.spec_inst(inst) == d0.spec_inst(inst));
            if uses {
                let ghost before = self@;
                assert(uses_block(d0, inst, bb));
                self.data.remove_block_at(inst, bb);
                proof {
                    assert forall|i: Inst| (i.0 as int) >= k + 1 || !uses_block(d0, i, bb) implies #[trigger] self@.spec_inst(i)
                        == d0.spec_inst(i) by {
                        if i != inst {
                            assert(before.spec_inst(i) == self@.spec_inst(i));
                        }
                    }
                    assert forall|i: Inst| (i.0 as int) < k + 1 && #[trigger] uses_block(d0, i, bb) implies {
                        &&& self@.spec_inst(i) is Some
                        &&& block_removed(d0.spec_inst(i)->0, self@.spec_inst(i)->0, bb, removal_count(d0.spec_inst(i)->0, bb))
                    } by {
                        if i != inst {
                            assert(before.spec_inst(i) == self@.spec_inst(i));
                        }
                    }
                }
            }
            k = k + 1;
        }
    }
}


impl UnitData {
    /// An instruction in the order of an inserted block has that block as
    /// its home.
    pub proof fn lemma_home(&self, bb: Block, i: u32)
        requires
            self.wf(),
            self.block_ids().contains(bb.0),
            self.inst_ids(bb).contains(i),
        ensures
            self.inst_home(Inst(i)) == Some(bb),
    {
        self.layout.lemma_home_of_placed(bb.0, i);
    }

    /// Result values are real values, never the invalid placeholder.
    proof fn lemma_result_valid(&self, i: Inst)
        requires
            self.wf(),
            self.spec_result(i) is Some,
        ensures
            (self.spec_result(i)->0).0 != u32::MAX,
    {
        assert(has_value(self.results@, i.0 as int));
    }
}

/// Killing the values of `dead`, then replacing `v` by the invalid value,
/// kills the values of `dead` and `v`.
proof fn lemma_kill_step(m: Seq<Value>, dead: Set<Value>, v: Value)
    requires
        v.0 != u32::MAX,
    ensures
        replace_in(
            m.map_values(|x: Value| if dead.contains(x) { Value(u32::MAX) } else { x }),
            v,
            Value(u32::MAX),
        ) =~= m.map_values(|x: Value| if dead.insert(v).contains(x) { Value(u32::MAX) } else { x }),
{
}

/// Replacing a value that does not occur changes nothing.
proof fn lemma_replace_absent(c: Seq<Value>, v: Value, to: Value)
    requires
        !c.contains(v),
    ensures
        replace_in(c, v, to) =~= c,
{
    assert forall|j: int| 0 <= j < c.len() implies replace_in(c, v, to)[j] == c[j] by {
        if c[j] == v {
            assert(c.contains(v));
        }
    }
}

/// The first element of a sequence without duplicates sits at index zero.
proof fn lemma_index_of_first(s: Seq<u32>, x: u32)
    requires
        s.no_duplicates(),
        s.len() > 0,
        s[0] == x,
    ensures
        s.index_of(x) == 0,
{
    assert(s.contains(x));
}

/// # Deleting blocks
impl UnitBuilder {
    /// Delete a block and all its instructions.
    ///
    /// Every use of the block is removed first, as `remove_block_use` does.
    /// Every use of a result of a deleted instruction is then replaced by
    /// the invalid value. The builder's position is kept as it is.
    pub fn delete_block(&mut self, bb: Block)
        requires
            old(self)@.wf(),
            old(self)@.block_ids().contains(bb.0),
            forall|i: Inst| #[trigger] uses_block(old(self)@, i, bb) ==> phi_shape_ok(old(self)@.spec_inst(i)->0),
        ensures
            final(self)@.wf(),
            final(self)@.block_ids() == old(self)@.block_ids().remove(old(self)@.block_ids().index_of(bb.0)),
            final(self)@.spec_block(bb) is None,
            forall|b: Block| b != bb ==> #[trigger] final(self)@.spec_block(b) == old(self)@.spec_block(b),
            forall|b: Block| b != bb ==> #[trigger] final(self)@.inst_ids(b) == old(self)@.inst_ids(b),
            forall|i: Inst| #[trigger] old(self)@.inst_ids(bb).contains(i.0) ==> {
                &&& final(self)@.spec_inst(i) is None
                &&& final(self)@.spec_result(i) is None
                &&& final(self)@.inst_home(i) is None
            },
            forall|i: Inst| !old(self)@.inst_ids(bb).contains(i.0) ==> #[trigger] final(self)@.inst_home(i)
                == old(self)@.inst_home(i),
            forall|i: Inst| !old(self)@.inst_ids(bb).contains(i.0) ==> #[trigger] final(self)@.spec_result(i)
                == old(self)@.spec_result(i),
            exists|mid: UnitData|
                #![trigger detached(old(self)@, mid, bb)]
                {
                    &&& detached(old(self)@, mid, bb)
                    &&& forall|i: Inst| !old(self)@.inst_ids(bb).contains(i.0) ==> {
                        &&& (#[trigger] final(self)@.spec_inst(i) is Some <==> mid.spec_inst(i) is Some)
                        &&& final(self)@.spec_inst(i) is Some ==> args_killed(
                            mid.spec_inst(i)->0,
                            final(self)@.spec_inst(i)->0,
                            block_results(old(self)@, bb),
                        )
                    }
                },
            forall|v: Value| #[trigger] block_results(old(self)@, bb).contains(v) ==> final(self)@.spec_value(v) is None,
            forall|v: Value| !block_results(old(self)@, bb).contains(v) ==> #[trigger] final(self)@.spec_value(v)
                == old(self)@.spec_value(v),
            final(self).spec_pos() == old(self).spec_pos(),
            final(self).spec_id() == old(self).spec_id(),
    {
        let ghost o = self@;
        let insts = self.unit().insts(bb);
        proof {
            o.lemma_distinct(bb);
            o.lemma_block_bound(bb.0);
        }
        self.detach_block_uses(bb);
        let ghost mid = self@;
        let n = insts.len();
        let mut k: usize = 0;
        proof {
            assert(o.inst_ids(bb).subrange(0, n as int) =~= o.inst_ids(bb));
            assert forall|j: int| 0 <= j < n implies {
                &&& self@.spec_inst(#[trigger] insts@[j]) is Some
                &&& self@.spec_result(insts@[j]) == o.spec_result(insts@[j])
            } by {
                assert(insts@[j] == Inst(o.inst_ids(bb)[j]));
                assert(o.inst_ids(bb).contains(o.inst_ids(bb)[j]));
                o.lemma_placed_exists(bb.0, o.inst_ids(bb)[j]);
            }
            assert forall|i: Inst| !o.inst_ids(bb).contains(i.0) && #[trigger] self@.spec_inst(i) is Some implies args_killed(
                mid.spec_inst(i)->0,
                self@.spec_inst(i)->0,
                results_of(o, insts@, 0),
            ) by {
                lemma_same_but_args_refl(self@.spec_inst(i)->0);
                let a = self@.spec_inst(i)->0.spec_args();
                assert(a.map_values(|x: Value| if results_of(o, insts@, 0).contains(x) { Value(u32::MAX) } else { x }) =~= a);
            }
        }
        while k < n
            invariant
                insts@ == as_insts(o.inst_ids(bb)),
                n == insts@.len(),
                o.wf(),
                o.block_ids().contains(bb.0),
                o.inst_ids(bb).no_duplicates(),
                detached(o, mid, bb),
                self@.wf(),
                k <= n,
                self@.block_ids() == o.block_ids(),
                self@.inst_ids(bb) == o.inst_ids(bb).subrange(k as int, n as int),
                forall|b: Block| b != bb ==> #[trigger] self@.inst_ids(b) == o.inst_ids(b),
                self@.block_bound() == o.block_bound(),
                forall|b: Block| #[trigger] self@.spec_block(b) == o.spec_block(b),
                forall|j: int| 0 <= j < k ==> {
                    &&& self@.spec_inst(#[trigger] insts@[j]) is None
                    &&& self@.spec_result(insts@[j]) is None
                    &&& self@.inst_home(insts@[j]) is None
                },
                forall|j: int| k <= j < n ==> {
                    &&& self@.spec_inst(#[trigger] insts@[j]) is Some
                    &&& self@.spec_result(insts@[j]) == o.spec_result(insts@[j])
                },
                forall|i: Inst| !o.inst_ids(bb).contains(i.0) ==> #[trigger] self@.inst_home(i) == o.inst_home(i),
                forall|i: Inst| !o.inst_ids(bb).contains(i.0) ==> #[trigger] self@.spec_result(i) == o.spec_result(i),
                forall|i: Inst| !o.inst_ids(bb).contains(i.0) ==> (#[trigger] self@.spec_inst(i) is Some <==> mid.spec_inst(i) is Some),
                forall|i: Inst| !o.inst_ids(bb).contains(i.0) && #[trigger] self@.spec_inst(i) is Some ==> args_killed(
                    mid.spec_inst(i)->0,
                    self@.spec_inst(i)->0,
                    results_of(o, insts@, k as int),
                ),
                forall|v: Value| #[trigger] results_of(o, insts@, k as int).contains(v) ==> self@.spec_value(v) is None,
                forall|v: Value| !results_of(o, insts@, k as int).contains(v) ==> #[trigger] self@.spec_value(v)
                    == o.spec_value(v),
                self.spec_pos() == old(self).spec_pos(),
                self.spec_id() == old(self).spec_id(),
            decreases n - k,
        {
            let inst = insts[k];
            let ghost r0 = results_of(o, insts@, k as int);
            let ghost before = self@;
            proof {
                assert(self@.inst_ids(bb)[0] == inst.0);
                assert(self@.inst_ids(bb).contains(inst.0));
                self@.lemma_home(bb, inst.0);
                assert(o.inst_ids(bb).contains(inst.0));
            }
            let has = self.unit().has_result(inst);
            if has {
                let v = self.unit().inst_result(inst);
                proof {
                    self@.lemma_result_valid(inst);
                }
                let ghost b2 = self@;
                self.redirect_uses(v, Value::invalid());
                proof {
                    assert forall|i: Inst| !o.inst_ids(bb).contains(i.0) && #[trigger] self@.spec_inst(i) is Some implies args_killed(
                        mid.spec_inst(i)->0,
                        self@.spec_inst(i)->0,
                        r0.insert(v),
                    ) by {
                        let m = mid.spec_inst(i)->0;
                        let c = b2.spec_inst(i)->0;
                        lemma_kill_step(m.spec_args(), r0, v);
                        if b2.reads_value(i, v) {
                            lemma_same_but_args_trans(m, c, self@.spec_inst(i)->0);
                        } else {
                            lemma_replace_absent(c.spec_args(), v, Value(u32::MAX));
                        }
                    }
                }
            }
            let ghost b3 = self@;
            self.remove_inst(inst);
            let ghost b4 = self@;
            self.data.remove_inst_dfg(inst);
            proof {
                let r1 = results_of(o, insts@, k as int + 1);
                if has {
                    let v = o.spec_result(inst)->0;
                    assert(r1 =~= r0.insert(v)) by {
                        assert forall|w: Value| r1.contains(w) implies r0.insert(w).contains(w) && (w == v || r0.contains(w)) by {
                            let j = choose|j: int| 0 <= j < k + 1 && o.spec_result(#[trigger] insts@[j]) == Some(w);
                            if j < k {
                                assert(r0.contains(w));
                            }
                        }
                        assert(o.spec_result(insts@[k as int]) == Some(v));
                    }
                } else {
                    assert(r1 =~= r0) by {
                        assert forall|w: Value| r1.contains(w) implies r0.contains(w) by {
                            let j = choose|j: int| 0 <= j < k + 1 && o.spec_result(#[trigger] insts@[j]) == Some(w);
                            if j == k {
                                assert(o.spec_result(insts@[k as int]) is None);
                            }
                        }
                    }
                }
                lemma_index_of_first(b3.inst_ids(bb), inst.0);
                assert(self@.inst_ids(bb) =~= o.inst_ids(bb).subrange(k as int + 1, n as int));
                assert forall|j: int| 0 <= j < k + 1 implies {
                    &&& self@.spec_inst(#[trigger] insts@[j]) is None
                    &&& self@.spec_result(insts@[j]) is None
                    &&& self@.inst_home(insts@[j]) is None
                } by {
                    if j < k {
                        assert(insts@[j] != inst) by {
                            assert(o.inst_ids(bb)[j] != o.inst_ids(bb)[k as int]);
                        }
                    }
                }
                assert forall|j: int| k + 1 <= j < n implies {
                    &&& self@.spec_inst(#[trigger] insts@[j]) is Some
                    &&& self@.spec_result(insts@[j]) == o.spec_result(insts@[j])
                } by {
                    assert(insts@[j] != inst) by {
                        assert(o.inst_ids(bb)[j] != o.inst_ids(bb)[k as int]);
                    }
                    if has {
                        assert(b3.spec_result(insts@[j]) == before.spec_result(insts@[j]));
                    }
                }
            }
            k = k + 1;
        }
        proof {
            assert(results_of(o, insts@, n as int) =~= block_results(o, bb)) by {
                assert forall|w: Value| #[trigger] block_results(o, bb).contains(w) implies results_of(o, insts@, n as int).contains(w) by {
                    let j = choose|j: int| 0 <= j < o.inst_ids(bb).len() && o.spec_result(Inst(#[trigger] o.inst_ids(bb)[j])) == Some(w);
                    assert(insts@[j] == Inst(o.inst_ids(bb)[j]));
                }
                assert forall|w: Value| #[trigger] results_of(o, insts@, n as int).contains(w) implies block_results(o, bb).contains(w) by {
                    let j = choose|j: int| 0 <= j < n && o.spec_result(#[trigger] insts@[j]) == Some(w);
                    assert(insts@[j] == Inst(o.inst_ids(bb)[j]));
                }
            }
        }
        let ghost b5 = self@;
        self.remove_block(bb);
        proof {
            assert(!self@.block_ids().contains(bb.0)) by {
                let s0 = o.block_ids();
                let x = s0.index_of(bb.0);
                if self@.block_ids().contains(bb.0) {
                    let j = choose|j: int| 0 <= j < self@.block_ids().len() && self@.block_ids()[j] == bb.0;
                    if j < x {
                        assert(s0[j] == bb.0);
                    } else {
                        assert(s0[j + 1] == bb.0);
                    }
                }
            }
        }
        self.data.drop_block_data(bb);
        proof {
            assert forall|i: Inst| #[trigger] o.inst_ids(bb).contains(i.0) implies {
                &&& self@.spec_inst(i) is None
                &&& self@.spec_result(i) is None
                &&& self@.inst_home(i) is None
            } by {
                let j = choose|j: int| 0 <= j < o.inst_ids(bb).len() && o.inst_ids(bb)[j] == i.0;
                assert(insts@[j] == i);
            }
            assert(detached(o, mid, bb));
        }
    }
}


/// Every instruction that exists sits in the layout.
pub open spec fn all_placed(d: UnitData) -> bool {
    forall|i: Inst| #[trigger] d.spec_inst(i) is Some ==> d.inst_placed(i)
}

/// Every argument of every instruction is an existing value.
pub open spec fn args_exist(d: UnitData) -> bool {
    forall|i: Inst, k: int|
        d.spec_inst(i) is Some && 0 <= k < d.spec_inst(i)->0.spec_args().len() ==> #[trigger] d.spec_value(
            d.spec_inst(i)->0.spec_args()[k],
        ) is Some
}

/// The number of existing instructions among the first `n` ids.
pub open spec fn live_upto(d: UnitData, n: int) -> nat
    decreases n,
{
    if n <= 0 {
        0
    } else {
        live_upto(d, n - 1) + if d.spec_inst(Inst((n - 1) as u32)) is Some {
            1nat
        } else {
            0nat
        }
    }
}

/// The number of existing instructions.
pub open spec fn live_count(d: UnitData) -> nat {
    live_upto(d, d.inst_bound() as int)
}

/// Deleting one instruction leaves one fewer among the ids past it.
proof fn lemma_live_delete(d: UnitData, e: UnitData, k: Inst, n: int)
    requires
        d.spec_inst(k) is Some,
        e.spec_inst(k) is None,
        forall|i: Inst| i != k ==> #[trigger] e.spec_inst(i) == d.spec_inst(i),
        0 <= n <= u32::MAX,
    ensures
        live_upto(e, n) + (if (k.0 as int) < n { 1nat } else { 0nat }) == live_upto(d, n),
    decreases n,
{
    if n > 0 {
        lemma_live_delete(d, e, k, n - 1);
        let j = Inst((n - 1) as u32);
        if j != k {
            assert(e.spec_inst(j) == d.spec_inst(j));
        }
    }
}

/// Removing one element of a sequence without duplicates keeps the others.
proof fn lemma_remove_keeps(s: Seq<u32>, x: u32, y: u32)
    requires
        s.contains(x),
        s.contains(y),
        x != y,
    ensures
        s.remove(s.index_of(y)).contains(x),
{
    let j = choose|j: int| 0 <= j < s.len() && s[j] == x;
    let r = s.index_of(y);
    if j < r {
        assert(s.remove(r)[j] == x);
    } else {
        assert(s.remove(r)[j - 1] == x);
    }
}

impl<'a> Unit<'a> {
    /// The data of an instruction, if it exists.
    pub(crate) fn get_inst_data(self, inst: Inst) -> (d: Option<&'a InstData>)
        ensures
            d matches Some(x) ==> self@.spec_inst(inst) == Some(*x),
            d is None ==> self@.spec_inst(inst) is None,
    {
        if (inst.0 as usize) < self.data.insts.len() {
            self.data.insts[inst.0 as usize].as_ref()
        } else {
            None
        }
    }
}

/// Instruction `r` exists in `old` and no longer in `new`.
pub open spec fn removed(old: UnitData, new: UnitData, r: Inst) -> bool {
    old.spec_inst(r) is Some && new.spec_inst(r) is None
}

/// Every instruction whose result `r` read in `old` and that is still in
/// `new` has its result read by some instruction of `new`.
pub open spec fn args_still_read(old: UnitData, new: UnitData, r: Inst) -> bool {
    forall|a: Inst|
        #![trigger new.spec_inst(a), old.spec_result(a)]
        new.spec_inst(a) is Some && old.spec_result(a) is Some && old.reads_value(r, old.spec_result(a)->0) ==> exists|
            i: Inst,
        | #[trigger] new.reads_value(i, old.spec_result(a)->0)
}

/// Going from `old` to `new` left no instruction with an unread result that
/// one of the removed instructions had read.
pub open spec fn no_dead_left(old: UnitData, new: UnitData) -> bool {
    forall|r: Inst| #[trigger] removed(old, new, r) ==> args_still_read(old, new, r)
}

/// The instructions that remain are unchanged, and so are their results.
pub open spec fn survivors_kept(old: UnitData, new: UnitData) -> bool {
    forall|i: Inst| #[trigger] new.spec_inst(i) is Some ==> new.spec_inst(i) == old.spec_inst(i)
        && new.spec_result(i) == old.spec_result(i)
}

/// A result that is read in `d1` is still read after a step to `d2` that
/// left no dead instruction behind, as long as its instruction remains.
proof fn lemma_reader_kept(d1: UnitData, d2: UnitData, a: Inst)
    requires
        no_dead_left(d1, d2),
        survivors_kept(d1, d2),
        d2.spec_inst(a) is Some,
        d1.spec_result(a) is Some,
        exists|i: Inst| #[trigger] d1.reads_value(i, d1.spec_result(a)->0),
    ensures
        exists|i: Inst| #[trigger] d2.reads_value(i, d1.spec_result(a)->0),
{
    let v = d1.spec_result(a)->0;
    let i = choose|i: Inst| #[trigger] d1.reads_value(i, v);
    if d2.spec_inst(i) is Some {
        assert(d2.spec_inst(i) == d1.spec_inst(i));
        assert(d2.reads_value(i, v));
    } else {
        assert(removed(d1, d2, i));
        assert(args_still_read(d1, d2, i));
        assert(d2.spec_inst(a) is Some && d1.spec_result(a) is Some && d1.reads_value(i, d1.spec_result(a)->0));
    }
}

/// Two steps that each leave no dead instruction behind, apart from what
/// `x` read in the first one, together leave none behind apart from that.
proof fn lemma_no_dead_compose(d0: UnitData, d1: UnitData, d2: UnitData, x: Inst)
    requires
        forall|r: Inst| #[trigger] removed(d0, d1, r) && r != x ==> args_still_read(d0, d1, r),
        no_dead_left(d1, d2),
        survivors_kept(d0, d1),
        survivors_kept(d1, d2),
    ensures
        forall|r: Inst| #[trigger] removed(d0, d2, r) && r != x ==> args_still_read(d0, d2, r),
{
    assert forall|r: Inst| #[trigger] removed(d0, d2, r) && r != x implies args_still_read(d0, d2, r) by {
        assert forall|a: Inst|
            #![trigger d2.spec_inst(a), d0.spec_result(a)]
            d2.spec_inst(a) is Some && d0.spec_result(a) is Some && d0.reads_value(r, d0.spec_result(a)->0) implies exists|
                i: Inst,
            | #[trigger] d2.reads_value(i, d0.spec_result(a)->0) by {
            assert(d1.spec_inst(a) is Some);
            assert(d1.spec_result(a) == d0.spec_result(a));
            if d1.spec_inst(r) is Some {
                assert(d1.spec_inst(r) == d0.spec_inst(r));
                assert(removed(d1, d2, r));
                assert(args_still_read(d1, d2, r));
                assert(d1.reads_value(r, d1.spec_result(a)->0));
            } else {
                assert(removed(d0, d1, r));
                assert(args_still_read(d0, d1, r));
                lemma_reader_kept(d1, d2, a);
            }
        }
    }
}

/// # Pruning
impl UnitBuilder {
    /// Remove an instruction if nothing reads its result, and then do the
    /// same for the instructions whose results it read. Returns whether the
    /// instruction was removed.
    pub fn prune_if_unused(&mut self, inst: Inst) -> (b: bool)
        requires
            old(self)@.wf(),
            all_placed(old(self)@),
            args_exist(old(self)@),
        ensures
            final(self)@.wf(),
            all_placed(final(self)@),
            args_exist(final(self)@),
            b == (old(self)@.spec_inst(inst) is Some && old(self)@.spec_result(inst) is Some && !(exists|i: Inst|
                old(self)@.reads_value(i, old(self)@.spec_result(inst)->0))),
            !b ==> final(self)@ == old(self)@ && final(self).spec_pos() == old(self).spec_pos(),
            b ==> final(self)@.spec_inst(inst) is None,
            forall|i: Inst| #[trigger] final(self)@.spec_inst(i) is Some ==> final(self)@.spec_inst(i) == old(
                self,
            )@.spec_inst(i) && final(self)@.inst_home(i) == old(self)@.inst_home(i) && final(self)@.spec_result(i)
                == old(self)@.spec_result(i),
            no_dead_left(old(self)@, final(self)@),
            final(self)@.block_ids() == old(self)@.block_ids(),
            final(self)@.inst_bound() == old(self)@.inst_bound(),
            live_count(final(self)@) <= live_count(old(self)@),
            final(self).spec_id() == old(self).spec_id(),
        decreases live_count(old(self)@),
    {
        let u = self.unit();
        let data = match u.get_inst_data(inst) {
            Some(d) => d,
            None => {
                return false;
            },
        };
        if !u.has_result(inst) {
            return false;
        }
        let v = u.inst_result(inst);
        if u.has_uses(v) {
            return false;
        }
        let args = data.args();
        let mut arg_insts: Vec<Inst> = Vec::new();
        let mut k: usize = 0;
        while k < args.len()
            invariant
                args@ == self@.spec_inst(inst)->0.spec_args(),
                self@.spec_inst(inst) is Some,
                args_exist(self@),
                self@ == old(self)@,
                old(self)@.wf(),
                k <= args@.len(),
                forall|a: Inst, kk: int|
                    #![trigger old(self)@.spec_result(a), args@[kk]]
                    0 <= kk < k && old(self)@.spec_result(a) == Some(args@[kk]) ==> arg_insts@.contains(a),
            decreases args@.len() - k,
        {
            let ghost before = arg_insts@;
            proof {
                assert(self@.spec_value(self@.spec_inst(inst)->0.spec_args()[k as int]) is Some);
            }
            match self.unit().get_value_inst(args[k]) {
                Some(i) => arg_insts.push(i),
                None => {},
            }
            proof {
                old(self)@.lemma_values_consistent();
                assert forall|a: Inst, kk: int|
                    #![trigger old(self)@.spec_result(a), args@[kk]]
                    0 <= kk < k + 1 && old(self)@.spec_result(a) == Some(args@[kk]) implies arg_insts@.contains(a) by {
                    if kk < k {
                        assert(before.contains(a));
                        let w = choose|w: int| 0 <= w < before.len() && before[w] == a;
                        assert(arg_insts@[w] == a);
                    } else {
                        assert(is_result_of(old(self)@.spec_value(old(self)@.spec_result(a)->0), a));
                        assert(arg_insts@[arg_insts@.len() - 1] == a);
                    }
                }
            }
            k = k + 1;
        }
        let ghost d0 = self@;
        proof {
            assert(d0.inst_placed(inst));
            assert forall|a: Inst|
                #![trigger old(self)@.spec_result(a)]
                old(self)@.spec_result(a) is Some && old(self)@.reads_value(inst, old(self)@.spec_result(a)->0) implies arg_insts@.contains(a) by {
                let v = old(self)@.spec_result(a)->0;
                let kk = args@.index_of(v);
                assert(args@[kk] == v);
            }
        }
        self.delete_inst(inst);
        proof {
            let d1 = self@;
            lemma_live_delete(d0, d1, inst, d0.inst_bound() as int);
            assert forall|i: Inst| #[trigger] d1.spec_inst(i) is Some implies d1.inst_placed(i) by {
                assert(i != inst);
                assert(d0.spec_inst(i) is Some);
                assert(d0.inst_placed(i));
                let home = d0.inst_home(i)->0;
                let ihome = d0.inst_home(inst)->0;
                if home == ihome {
                    d0.lemma_distinct(home);
                    lemma_remove_keeps(d0.inst_ids(home), i.0, inst.0);
                }
            }
            assert forall|i: Inst, k: int|
                d1.spec_inst(i) is Some && 0 <= k < d1.spec_inst(i)->0.spec_args().len() implies #[trigger] d1.spec_value(
                d1.spec_inst(i)->0.spec_args()[k],
            ) is Some by {
                assert(i != inst);
                let a = d0.spec_inst(i)->0.spec_args()[k];
                assert(d0.spec_value(a) is Some);
                if d0.spec_result(inst) == Some(a) {
                    assert(d0.spec_inst(i)->0.spec_args().contains(a));
                    assert(d0.reads_value(i, a));
                }
            }
        }
        let mut j: usize = 0;
        while j < arg_insts.len()
            invariant
                self@.wf(),
                all_placed(self@),
                args_exist(self@),
                live_count(self@) < live_count(old(self)@),
                self@.spec_inst(inst) is None,
                forall|i: Inst| #[trigger] self@.spec_inst(i) is Some ==> self@.spec_inst(i) == old(self)@.spec_inst(i)
                    && self@.inst_home(i) == old(self)@.inst_home(i),
                self@.block_ids() == old(self)@.block_ids(),
                self@.inst_bound() == old(self)@.inst_bound(),
                self.spec_id() == old(self).spec_id(),
                j <= arg_insts@.len(),
                survivors_kept(old(self)@, self@),
                forall|r: Inst| #[trigger] removed(old(self)@, self@, r) && r != inst ==> args_still_read(old(self)@, self@, r),
                forall|k: int|
                    0 <= k < j && self@.spec_inst(#[trigger] arg_insts@[k]) is Some && old(self)@.spec_result(arg_insts@[k]) is Some
                        ==> exists|i: Inst| #[trigger] self@.reads_value(i, old(self)@.spec_result(arg_insts@[k])->0),
                forall|a: Inst|
                    #![trigger old(self)@.spec_result(a)]
                    old(self)@.spec_result(a) is Some && old(self)@.reads_value(inst, old(self)@.spec_result(a)->0) ==> arg_insts@.contains(a),
            decreases arg_insts@.len() - j,
        {
            let ghost before = self@;
            let pruned = self.prune_if_unused(arg_insts[j]);
            proof {
                let after = self@;
                lemma_no_dead_compose(old(self)@, before, after, inst);
                assert forall|k: int|
                    0 <= k < j + 1 && after.spec_inst(#[trigger] arg_insts@[k]) is Some && old(self)@.spec_result(arg_insts@[k]) is Some
                        implies exists|i: Inst| #[trigger] after.reads_value(i, old(self)@.spec_result(arg_insts@[k])->0) by {
                    let a = arg_insts@[k];
                    assert(before.spec_inst(a) is Some);
                    assert(before.spec_result(a) == old(self)@.spec_result(a));
                    if k < j {
                        lemma_reader_kept(before, after, a);
                    } else {
                        assert(!pruned);
                        assert(after == before);
                    }
                }
                assert forall|i: Inst| #[trigger] self@.spec_inst(i) is Some implies self@.spec_inst(i) == old(self)@.spec_inst(i)
                    && self@.inst_home(i) == old(self)@.inst_home(i) by {
                    assert(before.spec_inst(i) is Some);
                }
                assert(self@.spec_inst(inst) is None) by {
                    if self@.spec_inst(inst) is Some {
                        assert(before.spec_inst(inst) is Some);
                    }
                }
            }
            j = j + 1;
        }
        proof {
            let fin = self@;
            assert forall|r: Inst| #[trigger] removed(old(self)@, fin, r) implies args_still_read(old(self)@, fin, r) by {
                if r == inst {
                    assert forall|a: Inst|
                        #![trigger fin.spec_inst(a), old(self)@.spec_result(a)]
                        fin.spec_inst(a) is Some && old(self)@.spec_result(a) is Some && old(self)@.reads_value(
                            r,
                            old(self)@.spec_result(a)->0,
                        ) implies exists|i: Inst| #[trigger] fin.reads_value(i, old(self)@.spec_result(a)->0) by {
                        assert(arg_insts@.contains(a));
                        let k = choose|k: int| 0 <= k < arg_insts@.len() && arg_insts@[k] == a;
                        assert(fin.spec_inst(arg_insts@[k]) is Some);
                    }
                }
            }
        }
        true
    }
}


/// The entry most recently recorded for `k` in a list of hints, if the list
/// has one and it was not cleared.
pub open spec fn latest_hint<K, H>(s: Seq<(K, Option<H>)>, k: K) -> Option<H>
    decreases s.len(),
{
    if s.len() == 0 {
        None
    } else if s.last().0 == k {
        s.last().1
    } else {
        latest_hint(s.drop_last(), k)
    }
}

impl UnitData {
    /// The anonymous name hint of a value.
    pub closed spec fn spec_value_hint(&self, v: Value) -> Option<u32> {
        latest_hint(self.value_hints@, v)
    }

    /// The anonymous name hint of a block.
    pub closed spec fn spec_block_hint(&self, bb: Block) -> Option<u32> {
        latest_hint(self.block_hints@, bb)
    }

    /// The location hint of an instruction.
    pub closed spec fn spec_location_hint(&self, inst: Inst) -> Option<usize> {
        latest_hint(self.location_hints@, inst)
    }
}

/// The latest value hint in a list.
fn find_value_hint(s: &Vec<(Value, Option<u32>)>, k: Value) -> (r: Option<u32>)
    ensures
        r == latest_hint(s@, k),
{
    let mut i = s.len();
    proof {
        assert(s@.subrange(0, i as int) == s@);
    }
    while i > 0
        invariant
            i <= s@.len(),
            latest_hint(s@, k) == latest_hint(s@.subrange(0, i as int), k),
        decreases i,
    {
        proof {
            assert(s@.subrange(0, i as int).drop_last() == s@.subrange(0, i - 1));
            assert(s@.subrange(0, i as int).last() == s@[i - 1]);
        }
        if s[i - 1].0 == k {
            return s[i - 1].1;
        }
        i = i - 1;
    }
    None
}

/// The latest block hint in a list.
fn find_block_hint(s: &Vec<(Block, Option<u32>)>, k: Block) -> (r: Option<u32>)
    ensures
        r == latest_hint(s@, k),
{
    let mut i = s.len();
    proof {
        assert(s@.subrange(0, i as int) == s@);
    }
    while i > 0
        invariant
            i <= s@.len(),
            latest_hint(s@, k) == latest_hint(s@.subrange(0, i as int), k),
        decreases i,
    {
        proof {
            assert(s@.subrange(0, i as int).drop_last() == s@.subrange(0, i - 1));
            assert(s@.subrange(0, i as int).last() == s@[i - 1]);
        }
        if s[i - 1].0 == k {
            return s[i - 1].1;
        }
        i = i - 1;
    }
    None
}

/// The latest location hint in a list.
fn find_location_hint(s: &Vec<(Inst, Option<usize>)>, k: Inst) -> (r: Option<usize>)
    ensures
        r == latest_hint(s@, k),
{
    let mut i = s.len();
    proof {
        assert(s@.subrange(0, i as int) == s@);
    }
    while i > 0
        invariant
            i <= s@.len(),
            latest_hint(s@, k) == latest_hint(s@.subrange(0, i as int), k),
        decreases i,
    {
        proof {
            assert(s@.subrange(0, i as int).drop_last() == s@.subrange(0, i - 1));
            assert(s@.subrange(0, i as int).last() == s@[i - 1]);
        }
        if s[i - 1].0 == k {
            return s[i - 1].1;
        }
        i = i - 1;
    }
    None
}

/// # Hints
impl<'a> Unit<'a> {
    /// The anonymous name hint of a value.
    pub fn get_anonymous_hint(self, value: Value) -> (r: Option<u32>)
        ensures
            r == self@.spec_value_hint(value),
    {
        find_value_hint(&self.data.value_hints, value)
    }

    /// The anonymous name hint of a block.
    pub fn get_anonymous_block_hint(self, bb: Block) -> (r: Option<u32>)
        ensures
            r == self@.spec_block_hint(bb),
    {
        find_block_hint(&self.data.block_hints, bb)
    }

    /// The byte offset of an instruction in the input file, if one was
    /// recorded.
    pub fn location_hint(self, inst: Inst) -> (r: Option<usize>)
        ensures
            r == self@.spec_location_hint(inst),
    {
        find_location_hint(&self.data.location_hints, inst)
    }
}

/// Only the hints of `new` may differ from those of `old`.
pub open spec fn only_hints_changed(new: UnitData, old: UnitData) -> bool {
    &&& new.wf() == old.wf()
    &&& new.same_dfg(old)
    &&& new.same_cfg(old)
    &&& new.same_layout(old)
}

/// # Hints
impl UnitBuilder {
    /// Set the anonymous name hint of a value.
    pub fn set_anonymous_hint(&mut self, value: Value, hint: u32)
        ensures
            final(self)@.spec_value_hint(value) == Some(hint),
            forall|v: Value| v != value ==> #[trigger] final(self)@.spec_value_hint(v) == old(self)@.spec_value_hint(v),
            forall|b: Block| #[trigger] final(self)@.spec_block_hint(b) == old(self)@.spec_block_hint(b),
            forall|i: Inst| #[trigger] final(self)@.spec_location_hint(i) == old(self)@.spec_location_hint(i),
            only_hints_changed(final(self)@, old(self)@),
            final(self).spec_pos() == old(self).spec_pos(),
            final(self).spec_id() == old(self).spec_id(),
    {
        self.data.value_hints.push((value, Some(hint)));
        proof {
            assert(self.data.value_hints@.drop_last() == old(self).data.value_hints@);
        }
    }

    /// Clear the anonymous name hint of a value, and return what it was.
    pub fn clear_anonymous_hint(&mut self, value: Value) -> (r: Option<u32>)
        ensures
            r == old(self)@.spec_value_hint(value),
            final(self)@.spec_value_hint(value) is None,
            forall|v: Value| v != value ==> #[trigger] final(self)@.spec_value_hint(v) == old(self)@.spec_value_hint(v),
            forall|b: Block| #[trigger] final(self)@.spec_block_hint(b) == old(self)@.spec_block_hint(b),
            forall|i: Inst| #[trigger] final(self)@.spec_location_hint(i) == old(self)@.spec_location_hint(i),
            only_hints_changed(final(self)@, old(self)@),
            final(self).spec_pos() == old(self).spec_pos(),
            final(self).spec_id() == old(self).spec_id(),
    {
        let r = find_value_hint(&self.data.value_hints, value);
        self.data.value_hints.push((value, None));
        proof {
            assert(self.data.value_hints@.drop_last() == old(self).data.value_hints@);
        }
        r
    }

    /// Set the anonymous name hint of a block.
    pub fn set_anonymous_block_hint(&mut self, bb: Block, hint: u32)
        ensures
            final(self)@.spec_block_hint(bb) == Some(hint),
            forall|b: Block| b != bb ==> #[trigger] final(self)@.spec_block_hint(b) == old(self)@.spec_block_hint(b),
            forall|v: Value| #[trigger] final(self)@.spec_value_hint(v) == old(self)@.spec_value_hint(v),
            forall|i: Inst| #[trigger] final(self)@.spec_location_hint(i) == old(self)@.spec_location_hint(i),
            only_hints_changed(final(self)@, old(self)@),
            final(self).spec_pos() == old(self).spec_pos(),
            final(self).spec_id() == old(self).spec_id(),
    {
        self.data.block_hints.push((bb, Some(hint)));
        proof {
            assert(self.data.block_hints@.drop_last() == old(self).data.block_hints@);
        }
    }

    /// Clear the anonymous name hint of a block, and return what it was.
    pub fn clear_anonymous_block_hint(&mut self, bb: Block) -> (r: Option<u32>)
        ensures
            r == old(self)@.spec_block_hint(bb),
            final(self)@.spec_block_hint(bb) is None,
            forall|b: Block| b != bb ==> #[trigger] final(self)@.spec_block_hint(b) == old(self)@.spec_block_hint(b),
            forall|v: Value| #[trigger] final(self)@.spec_value_hint(v) == old(self)@.spec_value_hint(v),
            forall|i: Inst| #[trigger] final(self)@.spec_location_hint(i) == old(self)@.spec_location_hint(i),
            only_hints_changed(final(self)@, old(self)@),
            final(self).spec_pos() == old(self).spec_pos(),
            final(self).spec_id() == old(self).spec_id(),
    {
        let r = find_block_hint(&self.data.block_hints, bb);
        self.data.block_hints.push((bb, None));
        proof {
            assert(self.data.block_hints@.drop_last() == old(self).data.block_hints@);
        }
        r
    }

    /// Record the byte offset of an instruction in the input file.
    pub fn set_location_hint(&mut self, inst: Inst, loc: usize)
        ensures
            final(self)@.spec_location_hint(inst) == Some(loc),
            forall|i: Inst| i != inst ==> #[trigger] final(self)@.spec_location_hint(i) == old(self)@.spec_location_hint(i),
            forall|v: Value| #[trigger] final(self)@.spec_value_hint(v) == old(self)@.spec_value_hint(v),
            forall|b: Block| #[trigger] final(self)@.spec_block_hint(b) == old(self)@.spec_block_hint(b),
            only_hints_changed(final(self)@, old(self)@),
            final(self).spec_pos() == old(self).spec_pos(),
            final(self).spec_id() == old(self).spec_id(),
    {
        self.data.location_hints.push((inst, Some(loc)));
        proof {
            assert(self.data.location_hints@.drop_last() == old(self).data.location_hints@);
        }
    }
}


/// Every instruction of `old` that reads `from` reads `to` in its place in
/// `new`; every other instruction is unchanged.
pub open spec fn uses_replaced(old: UnitData, new: UnitData, from: Value, to: Value) -> bool {
    &&& forall|i: Inst| !old.reads_value(i, from) ==> #[trigger] new.spec_inst(i) == old.spec_inst(i)
    &&& forall|i: Inst| #[trigger] old.reads_value(i, from) ==> {
        &&& new.spec_inst(i) is Some
        &&& value_replaced(old.spec_inst(i)->0, new.spec_inst(i)->0, from, to)
    }
}

/// Once every use of a value has been replaced by another value, nothing
/// reads the first value any more, and whatever read it reads the second.
pub proof fn lemma_replaced_value_unused(old: UnitData, new: UnitData, from: Value, to: Value)
    requires
        uses_replaced(old, new, from, to),
        from != to,
    ensures
        forall|i: Inst| !(#[trigger] new.reads_value(i, from)),
        forall|i: Inst| #[trigger] old.reads_value(i, from) ==> new.reads_value(i, to),
{
    assert forall|i: Inst| !(#[trigger] new.reads_value(i, from)) by {
        if old.reads_value(i, from) {
            let a = old.spec_inst(i)->0.spec_args();
            let b = new.spec_inst(i)->0.spec_args();
            if b.contains(from) {
                let k = choose|k: int| 0 <= k < b.len() && b[k] == from;
                assert(b[k] == (if a[k] == from { to } else { a[k] }));
            }
        }
    }
    assert forall|i: Inst| #[trigger] old.reads_value(i, from) implies new.reads_value(i, to) by {
        let a = old.spec_inst(i)->0.spec_args();
        let b = new.spec_inst(i)->0.spec_args();
        let k = choose|k: int| 0 <= k < a.len() && a[k] == from;
        assert(b[k] == to);
    }
}

} // verus!
