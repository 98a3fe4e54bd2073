//! The assembly text of the instructions of a unit, given the names chosen
//! for its values and blocks.

use crate::assembly::names::candidate;
use crate::assembly::{declaration_text, escaped, type_text, unit_name_text};
use crate::ir::inst::{
    gate_of, is_terminator_op, opcode_name, reg_mode_name, reg_modes, reg_shape_ok, InstData, Opcode, RegMode, RegTrigger,
};
use crate::ir::keys::{Arg, Block, Inst, Value};
use crate::ir::module::{DeclId, ModUnit, Module};
use crate::ir::unit::{unit_kind_name, value_data_ty, void_ty_spec, UnitData, UnitKind, ValueData};
use crate::konst::{decimal, time_string};
use crate::ty::Type;
use vstd::prelude::*;

verus! {

/// The type of a value of a unit.
pub open spec fn value_ty(d: UnitData, v: Value) -> Type {
    value_data_ty(d.spec_value(v)->0)
}

/// The type of an instruction: that of its result, or void.
pub open spec fn inst_ty(d: UnitData, inst: Inst) -> Type {
    match d.spec_result(inst) {
        Some(v) => value_ty(d, v),
        None => void_ty_spec(),
    }
}

/// A value as an instruction uses it: its name, led by its type where
/// `typed`.
pub open spec fn use_text(d: UnitData, vn: Map<u32, Seq<char>>, v: Value, typed: bool) -> Seq<char> {
    (if typed {
        type_text(value_ty(d, v)) + " "@
    } else {
        Seq::empty()
    }) + "%"@ + vn[v.0]
}

/// A block as an instruction refers to it.
pub open spec fn block_use_text(bn: Map<u32, Seq<char>>, bb: Block) -> Seq<char> {
    "%"@ + bn[bb.0]
}

/// A list of value uses separated by commas, led by a comma where `lead`;
/// the first use carries its type where `typed_first`, the others where
/// `typed_rest`.
pub open spec fn uses_text(
    d: UnitData,
    vn: Map<u32, Seq<char>>,
    vs: Seq<Value>,
    lead: bool,
    typed_first: bool,
    typed_rest: bool,
) -> Seq<char>
    decreases vs.len(),
{
    if vs.len() == 0 {
        Seq::empty()
    } else {
        let k = vs.len() - 1;
        uses_text(d, vn, vs.drop_last(), lead, typed_first, typed_rest) + (if k == 0 && !lead {
            Seq::empty()
        } else {
            ", "@
        }) + use_text(
            d,
            vn,
            vs.last(),
            if k == 0 {
                typed_first
            } else {
                typed_rest
            },
        )
    }
}

/// Immediates, each led by a comma.
pub open spec fn imms_text(imms: Seq<usize>) -> Seq<char>
    decreases imms.len(),
{
    if imms.len() == 0 {
        Seq::empty()
    } else {
        imms_text(imms.drop_last()) + ", "@ + decimal(imms.last() as nat)
    }
}

/// The `i`th trigger of a register instruction.
pub open spec fn reg_trigger(args: Seq<Value>, modes: Seq<RegMode>, i: int) -> RegTrigger {
    RegTrigger {
        data: args[1 + i],
        mode: modes[i],
        trigger: args[1 + modes.len() + i],
        gate: gate_of(args[1 + 2 * modes.len() + i]),
    }
}

/// A trigger of a register instruction, led by a comma.
pub open spec fn trigger_text(d: UnitData, vn: Map<u32, Seq<char>>, t: RegTrigger) -> Seq<char> {
    ", ["@ + use_text(d, vn, t.data, false) + ", "@ + reg_mode_name(t.mode) + " "@ + use_text(d, vn, t.trigger, false)
        + match t.gate {
        Some(g) => ", if "@ + use_text(d, vn, g, false),
        None => Seq::empty(),
    } + "]"@
}

/// The triggers of a register instruction.
pub open spec fn triggers_text(d: UnitData, vn: Map<u32, Seq<char>>, ts: Seq<RegTrigger>) -> Seq<char>
    decreases ts.len(),
{
    if ts.len() == 0 {
        Seq::empty()
    } else {
        triggers_text(d, vn, ts.drop_last()) + trigger_text(d, vn, ts.last())
    }
}

/// The first `n` incoming value and block pairs of a phi instruction,
/// separated by commas.
pub open spec fn phi_text(
    d: UnitData,
    vn: Map<u32, Seq<char>>,
    bn: Map<u32, Seq<char>>,
    args: Seq<Value>,
    bbs: Seq<Block>,
    n: nat,
) -> Seq<char>
    decreases n,
{
    if n == 0 {
        Seq::empty()
    } else {
        phi_text(d, vn, bn, args, bbs, (n - 1) as nat) + (if n == 1 {
            Seq::empty()
        } else {
            ", "@
        }) + "["@ + use_text(d, vn, args[n - 1], false) + ", "@ + block_use_text(bn, bbs[n - 1]) + "]"@
    }
}

/// The smaller of two numbers.
pub open spec fn min_nat(a: nat, b: nat) -> nat {
    if a <= b {
        a
    } else {
        b
    }
}

/// The assembly text of an instruction after its result, given the names of
/// values and blocks; `c` stands for the digits of an integer constant.
pub open spec fn inst_body_text(
    d: UnitData,
    inst: Inst,
    vn: Map<u32, Seq<char>>,
    bn: Map<u32, Seq<char>>,
    c: Seq<char>,
) -> Seq<char> {
    let data = d.spec_inst(inst)->0;
    let op = data.spec_opcode();
    let args = data.spec_args();
    let bbs = data.spec_blocks();
    let imms = data.spec_imms();
    match op {
        Opcode::ConstInt => "const "@ + type_text(inst_ty(d, inst)) + " "@ + c,
        Opcode::ConstTime => "const time "@ + match data {
            InstData::ConstTime { imm, .. } => time_string(
                imm.spec_time(),
                imm.spec_delta() as nat,
                imm.spec_epsilon() as nat,
            ),
            _ => Seq::empty(),
        },
        Opcode::ArrayUniform => "["@ + decimal(imms[0] as nat) + " x "@ + use_text(d, vn, args[0], true) + "]"@,
        Opcode::Array => "["@ + uses_text(d, vn, args, false, true, false) + "]"@,
        Opcode::Struct => "{"@ + uses_text(d, vn, args, false, true, true) + "}"@,
        Opcode::DrvCond => "drv "@ + use_text(d, vn, args[0], true) + " if "@ + use_text(d, vn, args[3], false)
            + ", "@ + use_text(d, vn, args[1], false) + ", "@ + use_text(d, vn, args[2], false),
        Opcode::Shl | Opcode::Shr | Opcode::Mux => opcode_name(op) + " "@ + uses_text(d, vn, args, false, true, true),
        Opcode::Reg => "reg "@ + use_text(d, vn, args[0], true) + match data {
            InstData::Reg { args, modes, .. } => triggers_text(
                d,
                vn,
                Seq::new(modes@.len(), |i: int| reg_trigger(args@, modes@, i)),
            ),
            _ => Seq::empty(),
        },
        Opcode::InsField | Opcode::InsSlice => opcode_name(op) + " "@ + uses_text(d, vn, args, false, true, true)
            + imms_text(imms),
        Opcode::ExtField | Opcode::ExtSlice => opcode_name(op) + " "@ + type_text(inst_ty(d, inst)) + uses_text(
            d,
            vn,
            args,
            true,
            true,
            true,
        ) + imms_text(imms),
        Opcode::Call => match data {
            InstData::Call { unit, ins, args, .. } => "call "@ + type_text(inst_ty(d, inst)) + " "@ + unit_name_text(
                d.spec_exts()[unit.0 as int].name,
            ) + " ("@ + uses_text(d, vn, args@.subrange(0, ins as int), false, true, true) + ")"@,
            _ => Seq::empty(),
        },
        Opcode::Inst => match data {
            InstData::Call { unit, ins, args, .. } => "inst "@ + unit_name_text(d.spec_exts()[unit.0 as int].name)
                + " ("@ + uses_text(d, vn, args@.subrange(0, ins as int), false, true, true) + ") -> ("@ + uses_text(
                d,
                vn,
                args@.subrange(ins as int, args@.len() as int),
                false,
                true,
                true,
            ) + ")"@,
            _ => Seq::empty(),
        },
        Opcode::Halt | Opcode::Ret => opcode_name(op),
        Opcode::Phi => "phi "@ + type_text(inst_ty(d, inst)) + " "@ + phi_text(
            d,
            vn,
            bn,
            args,
            bbs,
            min_nat(args.len(), bbs.len()),
        ),
        Opcode::Br => "br "@ + block_use_text(bn, bbs[0]),
        Opcode::BrCond => "br "@ + use_text(d, vn, args[0], false) + ", "@ + block_use_text(bn, bbs[0]) + ", "@
            + block_use_text(bn, bbs[1]),
        Opcode::Wait => "wait "@ + block_use_text(bn, bbs[0]) + uses_text(d, vn, args, true, false, false),
        Opcode::WaitTime => "wait "@ + block_use_text(bn, bbs[0]) + " for "@ + use_text(d, vn, args[0], false)
            + uses_text(d, vn, args.subrange(1, args.len() as int), true, false, false),
        _ => opcode_name(op) + " "@ + uses_text(d, vn, args, false, true, false),
    }
}

/// The assembly text of an instruction, given the names of values and
/// blocks; `c` stands for the digits of an integer constant.
pub open spec fn inst_text(
    d: UnitData,
    inst: Inst,
    vn: Map<u32, Seq<char>>,
    bn: Map<u32, Seq<char>>,
    c: Seq<char>,
) -> Seq<char> {
    (match d.spec_result(inst) {
        Some(v) => "%"@ + vn[v.0] + " = "@,
        None => Seq::empty(),
    }) + inst_body_text(d, inst, vn, bn, c)
}

/// The text of an instruction's integer constant: the constant's text for
/// a `const` of an integer, nothing for any other instruction.
pub open spec fn const_text(d: UnitData, inst: Inst) -> Seq<char> {
    match d.spec_inst(inst) {
        Some(InstData::ConstInt { opcode, imm }) => if opcode == Opcode::ConstInt {
            imm.spec_text()
        } else {
            Seq::empty()
        },
        _ => Seq::empty(),
    }
}

/// The texts of the integer constants of a unit, by instruction.
pub open spec fn const_texts(d: UnitData) -> Map<u32, Seq<char>> {
    Map::new(|k: u32| true, |k: u32| const_text(d, Inst(k)))
}

/// A value exists in the unit and is not the invalid value.
pub open spec fn value_usable(d: UnitData, v: Value) -> bool {
    &&& d.spec_value(v) is Some
    &&& !(d.spec_value(v)->0 is Invalid)
}

/// The `k`th value argument appears in the instruction's text: not for
/// opcodes that print no values; only the first for `array` with a length
/// and for a conditional branch; the first four for a conditional drive;
/// all but the absent gates of a register; only the inputs of a call; and
/// only those of a phi that have a block.
pub open spec fn arg_used(data: InstData, k: int) -> bool {
    let args = data.spec_args();
    match data.spec_opcode() {
        Opcode::ConstInt | Opcode::ConstTime | Opcode::Halt | Opcode::Ret | Opcode::Br => false,
        Opcode::ArrayUniform | Opcode::BrCond => k < 1,
        Opcode::DrvCond => k < 4,
        Opcode::Reg => k < 1 + 2 * reg_modes(data).len() || args[k].0 != u32::MAX,
        Opcode::Call => match data {
            InstData::Call { ins, .. } => k < ins,
            _ => true,
        },
        Opcode::Phi => k < min_nat(args.len(), data.spec_blocks().len()),
        _ => true,
    }
}

/// The `k`th block appears in the instruction's text: the target of a
/// branch or wait, the two targets of a conditional branch, and the blocks
/// of a phi that have a value.
pub open spec fn block_used(data: InstData, k: int) -> bool {
    match data.spec_opcode() {
        Opcode::Br | Opcode::Wait | Opcode::WaitTime => k < 1,
        Opcode::BrCond => k < 2,
        Opcode::Phi => k < min_nat(data.spec_args().len(), data.spec_blocks().len()),
        _ => false,
    }
}

/// The result, and every value and block that the instruction's text
/// refers to, have names.
pub open spec fn refs_named(d: UnitData, inst: Inst, vn: Map<u32, Seq<char>>, bn: Map<u32, Seq<char>>) -> bool {
    let data = d.spec_inst(inst)->0;
    let args = data.spec_args();
    let bbs = data.spec_blocks();
    &&& d.spec_result(inst) is Some ==> vn.contains_key((d.spec_result(inst)->0).0)
    &&& forall|k: int| 0 <= k < args.len() && arg_used(data, k) ==> vn.contains_key((#[trigger] args[k]).0)
    &&& forall|k: int| 0 <= k < bbs.len() && block_used(data, k) ==> bn.contains_key((#[trigger] bbs[k]).0)
}

/// The instruction exists and has what its text refers to: every value it
/// uses exists, every block it names exists, and it has the operands and
/// the format that its opcode reads.
pub open spec fn inst_writable(d: UnitData, inst: Inst) -> bool {
    let data = d.spec_inst(inst)->0;
    let args = data.spec_args();
    let bbs = data.spec_blocks();
    let imms = data.spec_imms();
    &&& d.wf()
    &&& d.spec_inst(inst) is Some
    &&& forall|k: int| 0 <= k < args.len() && arg_used(data, k) ==> value_usable(d, #[trigger] args[k])
    &&& forall|k: int| 0 <= k < bbs.len() && block_used(data, k) ==> d.spec_block(#[trigger] bbs[k]) is Some
    &&& match data.spec_opcode() {
        Opcode::ConstInt => data is ConstInt && d.spec_result(inst) is Some,
        Opcode::ConstTime => data matches InstData::ConstTime { imm, .. } && imm.spec_time().wf(),
        Opcode::ArrayUniform => args.len() >= 1 && imms.len() >= 1,
        Opcode::DrvCond => args.len() >= 4,
        Opcode::Reg => data is Reg && reg_shape_ok(data),
        Opcode::Call | Opcode::Inst => data matches InstData::Call { unit, ins, args, .. } && ins <= args@.len()
            && (unit.0 as int) < d.spec_exts().len(),
        Opcode::Phi => d.spec_result(inst) is Some,
        Opcode::Br | Opcode::Wait => bbs.len() >= 1,
        Opcode::BrCond => args.len() >= 1 && bbs.len() >= 2,
        Opcode::WaitTime => bbs.len() >= 1 && args.len() >= 1,
        _ => true,
    }
}

} // verus!

verus! {

/// The arguments in a unit's header: the type and the name of each,
/// separated by commas.
pub open spec fn header_args_text(d: UnitData, vn: Map<u32, Seq<char>>, args: Seq<Arg>) -> Seq<char>
    decreases args.len(),
{
    if args.len() == 0 {
        Seq::empty()
    } else {
        header_args_text(d, vn, args.drop_last()) + (if args.len() == 1 {
            Seq::empty()
        } else {
            ", "@
        }) + type_text(d.spec_sig()@.args[args.last().0 as int].ty) + " "@ + "%"@ + vn[(d.spec_arg_value(
            args.last(),
        )->0).0]
    }
}

/// The first line of a unit's text: its kind, name and arguments, and its
/// return type if it is a function.
pub open spec fn unit_header_text(d: UnitData, vn: Map<u32, Seq<char>>) -> Seq<char> {
    let s = d.spec_sig()@;
    unit_kind_name(d.spec_kind()) + " "@ + unit_name_text(d.spec_name()) + " ("@ + header_args_text(d, vn, s.inp) + if d.spec_kind()
        == UnitKind::Function {
        ") "@ + type_text(s.retty->0) + " {\n"@
    } else {
        ") -> ("@ + header_args_text(d, vn, s.oup) + ") {\n"@
    }
}

/// An instruction appears in its unit's text: all do but the terminators
/// of an entity.
pub open spec fn inst_printed(d: UnitData, i: u32) -> bool {
    !(d.spec_kind() == UnitKind::Entity && is_terminator_op(d.spec_inst(Inst(i))->0.spec_opcode()))
}

/// The lines of the given instructions; `cs` holds the digits of integer
/// constants, by instruction.
pub open spec fn insts_text(
    d: UnitData,
    vn: Map<u32, Seq<char>>,
    bn: Map<u32, Seq<char>>,
    cs: Map<u32, Seq<char>>,
    ids: Seq<u32>,
) -> Seq<char>
    decreases ids.len(),
{
    if ids.len() == 0 {
        Seq::empty()
    } else {
        insts_text(d, vn, bn, cs, ids.drop_last()) + if inst_printed(d, ids.last()) {
            "    "@ + inst_text(d, Inst(ids.last()), vn, bn, cs[ids.last()]) + "\n"@
        } else {
            Seq::empty()
        }
    }
}

/// The text of the given blocks: each block's label unless the unit is an
/// entity, then the lines of its instructions.
pub open spec fn blocks_text(
    d: UnitData,
    vn: Map<u32, Seq<char>>,
    bn: Map<u32, Seq<char>>,
    cs: Map<u32, Seq<char>>,
    bs: Seq<u32>,
) -> Seq<char>
    decreases bs.len(),
{
    if bs.len() == 0 {
        Seq::empty()
    } else {
        blocks_text(d, vn, bn, cs, bs.drop_last()) + (if d.spec_kind() != UnitKind::Entity {
            bn[bs.last()] + ":\n"@
        } else {
            Seq::empty()
        }) + insts_text(d, vn, bn, cs, d.inst_ids(Block(bs.last())))
    }
}

/// The assembly text of a unit, given the names of its values and blocks
/// and the digits of its integer constants.
pub open spec fn unit_text(
    d: UnitData,
    vn: Map<u32, Seq<char>>,
    bn: Map<u32, Seq<char>>,
    cs: Map<u32, Seq<char>>,
) -> Seq<char> {
    unit_header_text(d, vn) + blocks_text(d, vn, bn, cs, d.block_ids()) + "}\n"@
}

/// The unit can be written: it is well formed, a function has a return
/// type, every instruction that appears in its text is writable, and the
/// counters of the names fit in a `usize`.
pub open spec fn unit_writable(d: UnitData) -> bool {
    &&& d.wf()
    &&& 2 * (d.value_bound() + d.block_bound()) + 1 <= usize::MAX
    &&& d.spec_kind() == UnitKind::Function ==> d.spec_sig()@.retty is Some
    &&& forall|b: u32, i: u32|
        d.block_ids().contains(b) && #[trigger] d.inst_ids(Block(b)).contains(i) && inst_printed(d, i)
            ==> inst_writable(d, Inst(i))
}

} // verus!

verus! {

/// Every argument among `args` has a value with a name.
pub open spec fn args_named(d: UnitData, vn: Map<u32, Seq<char>>, args: Seq<Arg>) -> bool {
    forall|k: int| 0 <= k < args.len() ==> vn.contains_key((#[trigger] d.spec_arg_value(args[k])->0).0)
}

/// Every instruction among `ids` that appears in the text has names for
/// what it refers to.
pub open spec fn insts_named(
    d: UnitData,
    vn: Map<u32, Seq<char>>,
    bn: Map<u32, Seq<char>>,
    ids: Seq<u32>,
) -> bool {
    forall|k: int| 0 <= k < ids.len() && inst_printed(d, ids[k]) ==> refs_named(d, Inst(#[trigger] ids[k]), vn, bn)
}

/// Every block among `bs` has a name unless the unit is an entity, and its
/// instructions have names for what they refer to.
pub open spec fn blocks_named(
    d: UnitData,
    vn: Map<u32, Seq<char>>,
    bn: Map<u32, Seq<char>>,
    bs: Seq<u32>,
) -> bool {
    forall|k: int|
        0 <= k < bs.len() ==> (d.spec_kind() != UnitKind::Entity ==> bn.contains_key(#[trigger] bs[k])) && insts_named(
            d,
            vn,
            bn,
            d.inst_ids(Block(bs[k])),
        )
}

/// Everything the unit's text refers to has a name: the arguments in its
/// header, its blocks (unless it is an entity), and the values and blocks
/// its instructions refer to.
pub open spec fn unit_named(d: UnitData, vn: Map<u32, Seq<char>>, bn: Map<u32, Seq<char>>) -> bool {
    &&& args_named(d, vn, d.spec_sig()@.inp)
    &&& d.spec_kind() != UnitKind::Function ==> args_named(d, vn, d.spec_sig()@.oup)
    &&& blocks_named(d, vn, bn, d.block_ids())
}

/// Names, once there, stay there: what refers to named things still does
/// with more names.
pub proof fn lemma_refs_named_mono(
    d: UnitData,
    inst: Inst,
    vn1: Map<u32, Seq<char>>,
    bn1: Map<u32, Seq<char>>,
    vn2: Map<u32, Seq<char>>,
    bn2: Map<u32, Seq<char>>,
)
    requires
        refs_named(d, inst, vn1, bn1),
        vn1.submap_of(vn2),
        bn1.submap_of(bn2),
    ensures
        refs_named(d, inst, vn2, bn2),
{
    let data = d.spec_inst(inst)->0;
    let args = data.spec_args();
    let bbs = data.spec_blocks();
    assert forall|k: int| 0 <= k < args.len() && arg_used(data, k) implies vn2.contains_key((#[trigger] args[k]).0) by {
        assert(vn1.contains_key(args[k].0));
    }
    assert forall|k: int| 0 <= k < bbs.len() && block_used(data, k) implies bn2.contains_key((#[trigger] bbs[k]).0) by {
        assert(bn1.contains_key(bbs[k].0));
    }
}

/// Adding names keeps the instructions of `ids` named.
pub proof fn lemma_insts_named_mono(
    d: UnitData,
    ids: Seq<u32>,
    vn1: Map<u32, Seq<char>>,
    bn1: Map<u32, Seq<char>>,
    vn2: Map<u32, Seq<char>>,
    bn2: Map<u32, Seq<char>>,
)
    requires
        insts_named(d, vn1, bn1, ids),
        vn1.submap_of(vn2),
        bn1.submap_of(bn2),
    ensures
        insts_named(d, vn2, bn2, ids),
{
    assert forall|k: int| 0 <= k < ids.len() && inst_printed(d, ids[k]) implies refs_named(
        d,
        Inst(#[trigger] ids[k]),
        vn2,
        bn2,
    ) by {
        lemma_refs_named_mono(d, Inst(ids[k]), vn1, bn1, vn2, bn2);
    }
}

/// Adding names keeps the blocks of `bs` named.
pub proof fn lemma_blocks_named_mono(
    d: UnitData,
    bs: Seq<u32>,
    vn1: Map<u32, Seq<char>>,
    bn1: Map<u32, Seq<char>>,
    vn2: Map<u32, Seq<char>>,
    bn2: Map<u32, Seq<char>>,
)
    requires
        blocks_named(d, vn1, bn1, bs),
        vn1.submap_of(vn2),
        bn1.submap_of(bn2),
    ensures
        blocks_named(d, vn2, bn2, bs),
{
    assert forall|k: int| 0 <= k < bs.len() implies (d.spec_kind() != UnitKind::Entity ==> bn2.contains_key(
        #[trigger] bs[k],
    )) && insts_named(d, vn2, bn2, d.inst_ids(Block(bs[k]))) by {
        lemma_insts_named_mono(d, d.inst_ids(Block(bs[k])), vn1, bn1, vn2, bn2);
    }
}

} // verus!

verus! {

/// The names picked for one unit: for its values and for its blocks.
pub type UnitNames = (Map<u32, Seq<char>>, Map<u32, Seq<char>>);

/// The text of the given units, separated by blank lines; `ns` holds the
/// names picked for each.
pub open spec fn units_text(m: Module, us: Seq<u32>, ns: Seq<UnitNames>) -> Seq<char>
    decreases us.len(),
{
    if us.len() == 0 {
        Seq::empty()
    } else {
        let k = us.len() - 1;
        units_text(m, us.drop_last(), ns) + (if k > 0 {
            "\n"@
        } else {
            Seq::empty()
        }) + unit_text(
            m.spec_unit(ModUnit(us.last()))->0,
            ns[k].0,
            ns[k].1,
            const_texts(m.spec_unit(ModUnit(us.last()))->0),
        )
    }
}

/// The declarations of the given ids, one per line.
pub open spec fn decls_text(m: Module, ds: Seq<u32>) -> Seq<char>
    decreases ds.len(),
{
    if ds.len() == 0 {
        Seq::empty()
    } else {
        let decl = m.spec_decl(DeclId(ds.last()))->0;
        decls_text(m, ds.drop_last()) + declaration_text(decl.name, decl.sig@)
    }
}

/// The assembly text of a module: its units separated by blank lines,
/// then a blank line if both are present, then its declarations; `ns`
/// holds the names picked for each unit.
pub open spec fn module_text(m: Module, ns: Seq<UnitNames>) -> Seq<char> {
    units_text(m, m.unit_ids(), ns) + (if m.unit_ids().len() > 0 && m.decl_ids().len() > 0 {
        "\n"@
    } else {
        Seq::empty()
    }) + decls_text(m, m.decl_ids())
}

/// Each unit's names are distinct, follow the names the unit requests, and
/// cover what its text refers to.
pub open spec fn module_named(m: Module, ns: Seq<UnitNames>) -> bool {
    &&& ns.len() == m.unit_ids().len()
    &&& forall|k: int|
        0 <= k < ns.len() ==> names_distinct(#[trigger] ns[k].0, ns[k].1) && names_follow_hints(
            m.spec_unit(ModUnit(m.unit_ids()[k]))->0,
            ns[k].0,
            ns[k].1,
        ) && unit_named(m.spec_unit(ModUnit(m.unit_ids()[k]))->0, ns[k].0, ns[k].1)
}

/// The module can be written: it is well formed and each of its units can
/// be written.
pub open spec fn module_writable(m: Module) -> bool {
    &&& m.wf()
    &&& forall|u: u32| #[trigger] m.unit_ids().contains(u) ==> unit_writable(m.spec_unit(ModUnit(u))->0)
}

/// No two values, no two blocks, and no value and block share a name.
pub open spec fn names_distinct(vn: Map<u32, Seq<char>>, bn: Map<u32, Seq<char>>) -> bool {
    &&& forall|a: u32, b: u32|
        a != b && vn.contains_key(a) && vn.contains_key(b) ==> #[trigger] vn[a] != #[trigger] vn[b]
    &&& forall|a: u32, b: u32|
        a != b && bn.contains_key(a) && bn.contains_key(b) ==> #[trigger] bn[a] != #[trigger] bn[b]
    &&& forall|a: u32, b: u32| vn.contains_key(a) && bn.contains_key(b) ==> #[trigger] vn[a] != #[trigger] bn[b]
}

} // verus!

verus! {

/// The view of an optional name.
pub open spec fn name_view(o: Option<String>) -> Option<Seq<char>> {
    match o {
        Some(s) => Some(s@),
        None => None,
    }
}

/// A picked name follows its hint: the escaped requested name, with or
/// without a number appended, or a bare number where nothing was
/// requested.
pub open spec fn follows_hint(r: Seq<char>, hint: Option<Seq<char>>) -> bool {
    match hint {
        Some(n) => exists|j: nat| r == #[trigger] candidate(escaped(n), j),
        None => exists|t: nat| r == #[trigger] decimal(t),
    }
}

/// Every picked name follows the name that the unit requests for its value
/// or block.
pub open spec fn names_follow_hints(d: UnitData, vn: Map<u32, Seq<char>>, bn: Map<u32, Seq<char>>) -> bool {
    &&& forall|k: u32| vn.contains_key(k) ==> follows_hint(#[trigger] vn[k], name_view(d.spec_value_name(Value(k))))
    &&& forall|k: u32| bn.contains_key(k) ==> follows_hint(#[trigger] bn[k], name_view(d.spec_block(Block(k))->0.name))
}

} // verus!
