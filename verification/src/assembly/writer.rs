//! Emitting LLHD IR assembly.

use crate::assembly::names::{candidate, str_opt_view, uniquified, NameTable};
use crate::assembly::text::{
    arg_used, args_named, const_text, const_texts, decls_text, follows_hint, name_view, names_follow_hints, module_named, module_text, module_writable, names_distinct, units_text,
    UnitNames, block_use_text, block_used, blocks_named, blocks_text, header_args_text, imms_text,
    inst_body_text, inst_printed, inst_text, inst_writable, insts_named, insts_text, lemma_blocks_named_mono,
    lemma_insts_named_mono, min_nat, phi_text, refs_named,
    reg_trigger, trigger_text, triggers_text, unit_header_text, unit_named, unit_text, unit_writable, use_text,
    uses_text, value_usable,
};
use crate::assembly::{declaration_text, escaped, push_str, write_declaration_text, write_type, write_unit_name};
use crate::ir::inst::{reg_modes, InstData, Opcode, RegTrigger};
use crate::ir::keys::{Arg, Block, Inst, Value};
use crate::ir::layout::{as_blocks, as_insts};
use crate::ir::module::{DeclId, ModUnit, Module};
use crate::konst::{decimal, push_decimal};
use crate::ir::sig::Signature;
use crate::ir::unit::{Unit, UnitData, UnitKind, UnitName};
use vstd::prelude::*;

verus! {

broadcast use vstd::map_lib::lemma_submap_of_trans;


/// Collects emitted LLHD IR assembly text.
pub struct Writer {
    text: String,
}

impl Writer {
    /// The text emitted so far.
    pub closed spec fn spec_text(&self) -> Seq<char> {
        self.text@
    }

    /// Create a new assembly writer that has emitted nothing yet.
    pub fn new() -> (w: Self)
        ensures
            w.spec_text() == Seq::<char>::empty(),
    {
        Writer { text: String::new() }
    }

    /// Emit a declaration of an external unit.
    pub fn write_declaration(&mut self, sig: &Signature, name: &UnitName)
        requires
            sig@.wf(),
        ensures
            final(self).spec_text() == old(self).spec_text() + declaration_text(*name, sig@),
    {
        write_declaration_text(&mut self.text, sig, name);
    }

    /// Emit a unit: its header, then each block's label (unless it is an
    /// entity) and the lines of its instructions. Unique names are picked
    /// for its values and blocks, in the order the text names them.
    pub fn write_unit(&mut self, unit: Unit)
        requires
            unit_writable(unit@),
        ensures
            exists|vn: Map<u32, Seq<char>>, bn: Map<u32, Seq<char>>|
                {
                    &&& names_distinct(vn, bn)
                    &&& names_follow_hints(unit@, vn, bn)
                    &&& unit_named(unit@, vn, bn)
                    &&& final(self).spec_text() == old(self).spec_text() + #[trigger] unit_text(
                        unit@,
                        vn,
                        bn,
                        const_texts(unit@),
                    )
                },
    {
        let ghost t0 = self.text@;
        let mut uw = UnitWriter::new(unit);
        uw.name_unit();
        uw.put_unit();
        proof {
            uw.lemma_picked_names();
        }
        let ghost vn = uw.value_names();
        let ghost bn = uw.block_names();
        let s = uw.finish();
        push_str(&mut self.text, s.as_str());
        proof {
            assert(self.text@ == t0 + unit_text(unit@, vn, bn, const_texts(unit@)));
        }
    }

    /// Emit a module: its units separated by blank lines, then a blank line
    /// if both are present, then its declarations.
    pub fn write_module(&mut self, module: &Module)
        requires
            module_writable(*module),
        ensures
            exists|ns: Seq<UnitNames>|
                module_named(*module, ns) && final(self).spec_text() == old(self).spec_text() + #[trigger] module_text(
                    *module,
                    ns,
                ),
    {
        let ghost t0 = self.text@;
        let ghost m = *module;
        proof {
            m.lemma_ids();
        }
        let units = module.units();
        let ghost us = m.unit_ids();
        let ghost mut ns: Seq<UnitNames> = Seq::empty();
        let mut separate = false;
        let mut k: usize = 0;
        while k < units.len()
            invariant
                m == *module,
                module_writable(m),
                us == m.unit_ids(),
                units@ == us.map_values(|u: u32| ModUnit(u)),
                forall|x: u32| #[trigger] us.contains(x) <==> m.spec_unit(ModUnit(x)) is Some,
                k <= units@.len(),
                separate == (k > 0),
                ns.len() == k,
                forall|j: int|
                    0 <= j < k ==> names_distinct(#[trigger] ns[j].0, ns[j].1) && names_follow_hints(
                        m.spec_unit(ModUnit(us[j]))->0,
                        ns[j].0,
                        ns[j].1,
                    ) && unit_named(m.spec_unit(ModUnit(us[j]))->0, ns[j].0, ns[j].1),
                self.text@ == t0 + units_text(m, us.subrange(0, k as int), ns),
            decreases units@.len() - k,
        {
            let ghost t1 = self.text@;
            if separate {
                push_str(&mut self.text, "\n");
            }
            separate = true;
            let u = units[k];
            assert(u.0 == us[k as int]);
            assert(us.contains(u.0));
            let ghost t2 = self.text@;
            let data = module.unit(u);
            let unit = Unit::new_anonymous(data);
            self.write_unit(unit);
            proof {
                reveal_strlit("\n");
                let (vn, bn) = choose|vn: Map<u32, Seq<char>>, bn: Map<u32, Seq<char>>|
                    {
                        &&& names_distinct(vn, bn)
                        &&& names_follow_hints(unit@, vn, bn)
                        &&& unit_named(unit@, vn, bn)
                        &&& self.text@ == t2 + #[trigger] unit_text(unit@, vn, bn, const_texts(unit@))
                    };
                let ns0 = ns;
                ns = ns.push((vn, bn));
                let s1 = us.subrange(0, k + 1);
                assert(s1.drop_last() =~= us.subrange(0, k as int));
                assert(s1.last() == u.0);
                assert(units_text(m, s1.drop_last(), ns) == units_text(m, s1.drop_last(), ns0)) by {
                    lemma_units_text_prefix(m, s1.drop_last(), ns0, ns);
                }
                assert(self.text@ =~= t0 + units_text(m, s1, ns));
                assert(unit@ == m.spec_unit(ModUnit(us[k as int]))->0);
                assert forall|j: int|
                    0 <= j < k + 1 implies names_distinct(#[trigger] ns[j].0, ns[j].1) && names_follow_hints(m.spec_unit(ModUnit(us[j]))->0, ns[j].0, ns[j].1) && unit_named(
                    m.spec_unit(ModUnit(us[j]))->0,
                    ns[j].0,
                    ns[j].1,
                ) by {
                    if j < k {
                        assert(ns[j] == ns0[j]);
                        assert(names_distinct(ns0[j].0, ns0[j].1));
                    } else {
                        assert(ns[j] == (vn, bn));
                        assert(names_distinct(vn, bn));
                        assert(names_follow_hints(unit@, vn, bn));
                        assert(unit_named(unit@, vn, bn));
                    }
                }
            }
            k = k + 1;
        }
        proof {
            assert(us.subrange(0, k as int) =~= us);
        }
        let ghost t_units = self.text@;
        let decls = module.decls();
        let ghost ds = m.decl_ids();
        let mut k: usize = 0;
        while k < decls.len()
            invariant
                m == *module,
                m.wf(),
                ds == m.decl_ids(),
                decls@ == ds.map_values(|d: u32| DeclId(d)),
                forall|x: u32| #[trigger] ds.contains(x) <==> m.spec_decl(DeclId(x)) is Some,
                k <= decls@.len(),
                separate == (us.len() > 0 && k == 0),
                us == m.unit_ids(),
                k == 0 ==> self.text@ == t_units,
                k > 0 ==> self.text@ == t_units + (if us.len() > 0 {
                    "\n"@
                } else {
                    Seq::empty()
                }) + decls_text(m, ds.subrange(0, k as int)),
            decreases decls@.len() - k,
        {
            let ghost t1 = self.text@;
            if separate {
                push_str(&mut self.text, "\n");
            }
            separate = false;
            let did = decls[k];
            assert(did.0 == ds[k as int]);
            assert(ds.contains(did.0));
            let data = module.decl(did);
            proof {
                m.lemma_entries_ok(ModUnit(0), did);
            }
            self.write_declaration(&data.sig, &data.name);
            proof {
                reveal_strlit("\n");
                let s1 = ds.subrange(0, k + 1);
                assert(s1.drop_last() =~= ds.subrange(0, k as int));
                assert(s1.last() == did.0);
                assert(decls_text(m, ds.subrange(0, 0)) == Seq::<char>::empty());
                assert(self.text@ =~= t_units + (if us.len() > 0 {
                    "\n"@
                } else {
                    Seq::empty()
                }) + decls_text(m, s1));
            }
            k = k + 1;
        }
        proof {
            assert(ds.subrange(0, k as int) =~= ds);
            assert(self.text@ =~= t0 + module_text(m, ns));
        }
    }

    /// The text emitted so far.
    pub fn text(&self) -> (s: &str)
        ensures
            s@ == self.spec_text(),
    {
        self.text.as_str()
    }

    /// Finish emitting and hand out the text.
    pub fn finish(self) -> (s: String)
        ensures
            s@ == self.spec_text(),
    {
        self.text
    }
}

/// The text of some units depends only on the names of those units.
proof fn lemma_units_text_prefix(m: Module, us: Seq<u32>, ns1: Seq<UnitNames>, ns2: Seq<UnitNames>)
    requires
        us.len() <= ns1.len(),
        us.len() <= ns2.len(),
        forall|j: int| 0 <= j < us.len() ==> #[trigger] ns1[j] == ns2[j],
    ensures
        units_text(m, us, ns1) == units_text(m, us, ns2),
    decreases us.len(),
{
    if us.len() > 0 {
        lemma_units_text_prefix(m, us.drop_last(), ns1, ns2);
        assert(ns1[us.len() - 1] == ns2[us.len() - 1]);
    }
}

} // verus!

verus! {

/// The number of entries of a table that hold a name.
pub open spec fn count_named(s: Seq<Option<String>>) -> nat
    decreases s.len(),
{
    if s.len() == 0 {
        0
    } else {
        count_named(s.drop_last()) + if s.last() is Some {
            1nat
        } else {
            0nat
        }
    }
}

/// The names in a table of optional names, by index.
pub open spec fn names_map(s: Seq<Option<String>>) -> Map<u32, Seq<char>> {
    Map::new(|k: u32| (k as int) < s.len() && s[k as int] is Some, |k: u32| s[k as int]->0@)
}

/// A table never holds more names than entries.
proof fn lemma_count_named_bound(s: Seq<Option<String>>)
    ensures
        count_named(s) <= s.len(),
    decreases s.len(),
{
    if s.len() > 0 {
        lemma_count_named_bound(s.drop_last());
    }
}

/// Filling an empty entry adds one name.
proof fn lemma_count_named_fill(s: Seq<Option<String>>, i: int, x: String)
    requires
        0 <= i < s.len(),
        s[i] is None,
    ensures
        count_named(s.update(i, Some(x))) == count_named(s) + 1,
    decreases s.len(),
{
    let t = s.update(i, Some(x));
    if i == s.len() - 1 {
        assert(t.drop_last() =~= s.drop_last());
    } else {
        assert(t.drop_last() =~= s.drop_last().update(i, Some(x)));
        lemma_count_named_fill(s.drop_last(), i, x);
    }
}

/// A table of no names.
proof fn lemma_count_named_none(n: nat)
    ensures
        count_named(Seq::new(n, |i: int| None::<String>)) == 0,
    decreases n,
{
    if n > 0 {
        assert(Seq::new(n, |i: int| None::<String>).drop_last() =~= Seq::new((n - 1) as nat, |i: int| None::<String>));
        lemma_count_named_none((n - 1) as nat);
    }
}

/// Picks unique names for the values and blocks of a unit and emits its
/// assembly text.
pub struct UnitWriter<'a> {
    unit: Unit<'a>,
    text: String,
    value_names: Vec<Option<String>>,
    block_names: Vec<Option<String>>,
    table: NameTable,
}

impl<'a> UnitWriter<'a> {
    /// The unit being written.
    pub closed spec fn spec_unit(&self) -> UnitData {
        self.unit@
    }

    /// The text emitted so far.
    pub closed spec fn spec_text(&self) -> Seq<char> {
        self.text@
    }

    /// The names picked for values so far, by value index.
    pub closed spec fn value_names(&self) -> Map<u32, Seq<char>> {
        names_map(self.value_names@)
    }

    /// The names picked for blocks so far, by block index.
    pub closed spec fn block_names(&self) -> Map<u32, Seq<char>> {
        names_map(self.block_names@)
    }

    /// The table the names are picked from.
    pub closed spec fn spec_table(&self) -> NameTable {
        self.table
    }

    /// The tables agree with the unit and with each other, and every picked
    /// name was handed out by the table once.
    pub closed spec fn wf(&self) -> bool {
        &&& self.unit@.wf()
        &&& self.table.wf()
        &&& self.value_names@.len() == self.unit@.value_bound()
        &&& self.block_names@.len() == self.unit@.block_bound()
        &&& 2 * (self.unit@.value_bound() + self.unit@.block_bound()) + 1 <= usize::MAX
        &&& self.table.spec_names().len() == count_named(self.value_names@) + count_named(self.block_names@)
        &&& forall|k: int|
            0 <= k < self.value_names@.len() && self.value_names@[k] is Some ==> self.table.spec_names().contains(
                (#[trigger] self.value_names@[k])->0@,
            )
        &&& forall|k: int|
            0 <= k < self.block_names@.len() && self.block_names@[k] is Some ==> self.table.spec_names().contains(
                (#[trigger] self.block_names@[k])->0@,
            )
        &&& names_distinct(self.value_names(), self.block_names())
        &&& names_follow_hints(self.unit@, self.value_names(), self.block_names())
    }

    /// Picked names are distinct: no two values, no two blocks, and no value
    /// and block share a name. Each follows the name the unit requests for
    /// its value or block: that name escaped, with or without a number
    /// appended, or a bare number where none is requested.
    pub proof fn lemma_picked_names(&self)
        requires
            self.wf(),
        ensures
            names_distinct(self.value_names(), self.block_names()),
            names_follow_hints(self.spec_unit(), self.value_names(), self.block_names()),
    {
    }

    /// Create a writer for a unit that has picked no names yet.
    pub fn new(unit: Unit<'a>) -> (w: Self)
        requires
            unit@.wf(),
            2 * (unit@.value_bound() + unit@.block_bound()) + 1 <= usize::MAX,
        ensures
            w.wf(),
            w.spec_unit() == unit@,
            w.spec_text() == Seq::<char>::empty(),
            w.value_names() == Map::<u32, Seq<char>>::empty(),
            w.block_names() == Map::<u32, Seq<char>>::empty(),
            w.spec_table().spec_names() == Seq::<Seq<char>>::empty(),
            forall|b: Seq<char>| #[trigger] w.spec_table().spec_counter(b) == 0,
            w.spec_table().spec_tmp() == 0,
    {
        let nv = unit.value_id_bound();
        let nb = unit.block_id_bound();
        let mut value_names: Vec<Option<String>> = Vec::new();
        let mut k: usize = 0;
        while k < nv
            invariant
                k <= nv,
                value_names@ =~= Seq::new(k as nat, |i: int| None::<String>),
            decreases nv - k,
        {
            value_names.push(None);
            k = k + 1;
        }
        let mut block_names: Vec<Option<String>> = Vec::new();
        let mut k: usize = 0;
        while k < nb
            invariant
                k <= nb,
                block_names@ =~= Seq::new(k as nat, |i: int| None::<String>),
            decreases nb - k,
        {
            block_names.push(None);
            k = k + 1;
        }
        let w = UnitWriter { unit, text: String::new(), value_names, block_names, table: NameTable::new() };
        proof {
            lemma_count_named_none(nv as nat);
            lemma_count_named_none(nb as nat);
            assert(w.value_names() =~= Map::<u32, Seq<char>>::empty());
            assert(w.block_names() =~= Map::<u32, Seq<char>>::empty());
        }
        w
    }

    /// Pick a name for a value unless it has one.
    fn name_value(&mut self, value: Value)
        requires
            old(self).wf(),
            old(self).spec_unit().spec_value(value) is Some,
        ensures
            final(self).wf(),
            final(self).unit == old(self).unit,
            final(self).text == old(self).text,
            final(self).block_names == old(self).block_names,
            final(self).value_names().contains_key(value.0),
            old(self).value_names().submap_of(final(self).value_names()),
            old(self).value_names().contains_key(value.0) ==> final(self).value_names() == old(self).value_names()
                && final(self).table == old(self).table,
            !old(self).value_names().contains_key(value.0) ==> uniquified(
                old(self).table,
                final(self).table,
                name_view(old(self).spec_unit().spec_value_name(value)),
                final(self).value_names()[value.0],
            ),
    {
        let i = value.0 as usize;
        proof {
            self.unit@.lemma_ids_bounded(value, Block(0));
        }
        let named = match &self.value_names[i] {
            Some(_) => true,
            None => false,
        };
        if !named {
            proof {
                lemma_count_named_bound(self.value_names@);
                lemma_count_named_bound(self.block_names@);
            }
            let hint = self.unit.get_name(value);
            proof {
                assert(str_opt_view(hint) == name_view(self.unit@.spec_value_name(value)));
            }
            let ghost old_names = self.table.spec_names();
            let ghost vs0 = self.value_names@;
            let r = self.table.uniquify_name(hint);
            let ghost rr = r@;
            self.value_names.set(i, Some(r));
            proof {
                lemma_count_named_fill(vs0, i as int, r);
                assert(self.value_names() =~= names_map(vs0).insert(value.0, rr));
                assert forall|k: int|
                    0 <= k < self.value_names@.len() && self.value_names@[k] is Some implies self.table.spec_names().contains(
                    (#[trigger] self.value_names@[k])->0@,
                ) by {
                    if k == i {
                        assert(self.table.spec_names().last() == rr);
                    } else {
                        assert(old_names.contains(vs0[k]->0@));
                        let j = choose|j: int| 0 <= j < old_names.len() && old_names[j] == vs0[k]->0@;
                        assert(self.table.spec_names()[j] == vs0[k]->0@);
                    }
                }
                assert forall|k: int|
                    0 <= k < self.block_names@.len() && self.block_names@[k] is Some implies self.table.spec_names().contains(
                    (#[trigger] self.block_names@[k])->0@,
                ) by {
                    assert(old_names.contains(self.block_names@[k]->0@));
                    let j = choose|j: int| 0 <= j < old_names.len() && old_names[j] == self.block_names@[k]->0@;
                    assert(self.table.spec_names()[j] == self.block_names@[k]->0@);
                }
                let vn = self.value_names();
                let bn = self.block_names();
                let vn0 = names_map(vs0);
                assert forall|a: u32, b: u32| a != b && vn.contains_key(a) && vn.contains_key(b) implies #[trigger] vn[a]
                    != #[trigger] vn[b] by {
                    if a == value.0 {
                        assert(old_names.contains(vs0[b as int]->0@));
                    } else if b == value.0 {
                        assert(old_names.contains(vs0[a as int]->0@));
                    } else {
                        assert(vn0[a] != vn0[b]);
                    }
                }
                assert forall|a: u32, b: u32| vn.contains_key(a) && bn.contains_key(b) implies #[trigger] vn[a]
                    != #[trigger] bn[b] by {
                    assert(old_names.contains(self.block_names@[b as int]->0@));
                    if a != value.0 {
                        assert(vn0[a] != bn[b]);
                    }
                }
                let d = self.unit@;
                assert(follows_hint(rr, name_view(d.spec_value_name(value)))) by {
                    match name_view(d.spec_value_name(value)) {
                        Some(n) => {
                            let j = self.table.spec_counter(escaped(n)) - 1;
                            assert(rr == candidate(escaped(n), j as nat));
                        },
                        None => {
                            let t = self.table.spec_tmp() - 1;
                            assert(rr == decimal(t as nat));
                        },
                    }
                }
                assert forall|k: u32| vn.contains_key(k) implies follows_hint(
                    #[trigger] vn[k],
                    name_view(d.spec_value_name(Value(k))),
                ) by {
                    if k != value.0 {
                        assert(vn0.contains_key(k));
                        assert(vn[k] == vn0[k]);
                    } else {
                        assert(Value(k) == value);
                    }
                }
            }
        }
    }

    /// Pick a name for a block unless it has one.
    fn name_block(&mut self, block: Block)
        requires
            old(self).wf(),
            old(self).spec_unit().spec_block(block) is Some,
        ensures
            final(self).wf(),
            final(self).unit == old(self).unit,
            final(self).text == old(self).text,
            final(self).value_names == old(self).value_names,
            final(self).block_names().contains_key(block.0),
            old(self).block_names().submap_of(final(self).block_names()),
            old(self).block_names().contains_key(block.0) ==> final(self).block_names() == old(self).block_names()
                && final(self).table == old(self).table,
            !old(self).block_names().contains_key(block.0) ==> uniquified(
                old(self).table,
                final(self).table,
                name_view(old(self).spec_unit().spec_block(block)->0.name),
                final(self).block_names()[block.0],
            ),
    {
        let i = block.0 as usize;
        proof {
            self.unit@.lemma_ids_bounded(Value(0), block);
        }
        let named = match &self.block_names[i] {
            Some(_) => true,
            None => false,
        };
        if !named {
            proof {
                lemma_count_named_bound(self.value_names@);
                lemma_count_named_bound(self.block_names@);
            }
            let hint = self.unit.get_block_name(block);
            proof {
                assert(str_opt_view(hint) == name_view(self.unit@.spec_block(block)->0.name));
            }
            let ghost old_names = self.table.spec_names();
            let ghost bs0 = self.block_names@;
            let r = self.table.uniquify_name(hint);
            let ghost rr = r@;
            self.block_names.set(i, Some(r));
            proof {
                lemma_count_named_fill(bs0, i as int, r);
                assert(self.block_names() =~= names_map(bs0).insert(block.0, rr));
                assert forall|k: int|
                    0 <= k < self.block_names@.len() && self.block_names@[k] is Some implies self.table.spec_names().contains(
                    (#[trigger] self.block_names@[k])->0@,
                ) by {
                    if k == i {
                        assert(self.table.spec_names().last() == rr);
                    } else {
                        assert(old_names.contains(bs0[k]->0@));
                        let j = choose|j: int| 0 <= j < old_names.len() && old_names[j] == bs0[k]->0@;
                        assert(self.table.spec_names()[j] == bs0[k]->0@);
                    }
                }
                assert forall|k: int|
                    0 <= k < self.value_names@.len() && self.value_names@[k] is Some implies self.table.spec_names().contains(
                    (#[trigger] self.value_names@[k])->0@,
                ) by {
                    assert(old_names.contains(self.value_names@[k]->0@));
                    let j = choose|j: int| 0 <= j < old_names.len() && old_names[j] == self.value_names@[k]->0@;
                    assert(self.table.spec_names()[j] == self.value_names@[k]->0@);
                }
                let vn = self.value_names();
                let bn = self.block_names();
                let bn0 = names_map(bs0);
                assert forall|a: u32, b: u32| a != b && bn.contains_key(a) && bn.contains_key(b) implies #[trigger] bn[a]
                    != #[trigger] bn[b] by {
                    if a == block.0 {
                        assert(old_names.contains(bs0[b as int]->0@));
                    } else if b == block.0 {
                        assert(old_names.contains(bs0[a as int]->0@));
                    } else {
                        assert(bn0[a] != bn0[b]);
                    }
                }
                assert forall|a: u32, b: u32| vn.contains_key(a) && bn.contains_key(b) implies #[trigger] vn[a]
                    != #[trigger] bn[b] by {
                    assert(old_names.contains(self.value_names@[a as int]->0@));
                    if b != block.0 {
                        assert(vn[a] != bn0[b]);
                    }
                }
                let d = self.unit@;
                assert(follows_hint(rr, name_view(d.spec_block(block)->0.name))) by {
                    match name_view(d.spec_block(block)->0.name) {
                        Some(n) => {
                            let j = self.table.spec_counter(escaped(n)) - 1;
                            assert(rr == candidate(escaped(n), j as nat));
                        },
                        None => {
                            let t = self.table.spec_tmp() - 1;
                            assert(rr == decimal(t as nat));
                        },
                    }
                }
                assert forall|k: u32| bn.contains_key(k) implies follows_hint(
                    #[trigger] bn[k],
                    name_view(d.spec_block(Block(k))->0.name),
                ) by {
                    if k != block.0 {
                        assert(bn0.contains_key(k));
                        assert(bn[k] == bn0[k]);
                    } else {
                        assert(Block(k) == block);
                    }
                }
            }
        }
    }
}

} // verus!

verus! {

impl<'a> UnitWriter<'a> {
    /// `self` holds the same unit, names and table as `o`.
    spec fn keeps_names(&self, o: Self) -> bool {
        &&& self.unit == o.unit
        &&& self.value_names == o.value_names
        &&& self.block_names == o.block_names
        &&& self.table == o.table
    }

    /// `self` holds the same unit and text as `o`, and every name `o` picked.
    spec fn grows(&self, o: Self) -> bool {
        &&& self.unit == o.unit
        &&& self.text == o.text
        &&& o.value_names().submap_of(self.value_names())
        &&& o.block_names().submap_of(self.block_names())
    }

    /// Append a string.
    fn put(&mut self, s: &str)
        ensures
            final(self).keeps_names(*old(self)),
            final(self).text@ == old(self).text@ + s@,
    {
        push_str(&mut self.text, s);
    }

    /// Append the name picked for a value.
    fn put_value_name(&mut self, v: Value)
        requires
            old(self).value_names().contains_key(v.0),
        ensures
            final(self).keeps_names(*old(self)),
            final(self).text@ == old(self).text@ + old(self).value_names()[v.0],
    {
        let i = v.0 as usize;
        match &self.value_names[i] {
            Some(n) => push_str(&mut self.text, n.as_str()),
            None => {},
        }
    }

    /// Append the name picked for a block.
    fn put_block_name(&mut self, bb: Block)
        requires
            old(self).block_names().contains_key(bb.0),
        ensures
            final(self).keeps_names(*old(self)),
            final(self).text@ == old(self).text@ + old(self).block_names()[bb.0],
    {
        let i = bb.0 as usize;
        match &self.block_names[i] {
            Some(n) => push_str(&mut self.text, n.as_str()),
            None => {},
        }
    }

    /// Append a named value as an instruction uses it.
    fn put_use(&mut self, v: Value, typed: bool)
        requires
            value_usable(old(self).unit@, v),
            old(self).value_names().contains_key(v.0),
        ensures
            final(self).keeps_names(*old(self)),
            final(self).text@ == old(self).text@ + use_text(old(self).unit@, old(self).value_names(), v, typed),
    {
        let ghost t0 = self.text@;
        if typed {
            let t = self.unit.value_type(v);
            write_type(&mut self.text, &t);
            self.put(" ");
        }
        self.put("%");
        self.put_value_name(v);
        proof {
            reveal_strlit(" ");
            reveal_strlit("%");
            assert(self.text@ =~= t0 + use_text(self.unit@, self.value_names(), v, typed));
        }
    }

    /// Append a named block as an instruction refers to it.
    fn put_block(&mut self, bb: Block)
        requires
            old(self).block_names().contains_key(bb.0),
        ensures
            final(self).keeps_names(*old(self)),
            final(self).text@ == old(self).text@ + block_use_text(old(self).block_names(), bb),
    {
        let ghost t0 = self.text@;
        self.put("%");
        self.put_block_name(bb);
        proof {
            reveal_strlit("%");
            assert(self.text@ =~= t0 + block_use_text(self.block_names(), bb));
        }
    }

    /// Append a list of named value uses.
    fn put_uses(&mut self, vs: &Vec<Value>, lead: bool, typed_first: bool, typed_rest: bool)
        requires
            forall|k: int|
                0 <= k < vs@.len() ==> value_usable(old(self).unit@, #[trigger] vs@[k])
                    && old(self).value_names().contains_key(vs@[k].0),
        ensures
            final(self).keeps_names(*old(self)),
            final(self).text@ == old(self).text@ + uses_text(
                old(self).unit@,
                old(self).value_names(),
                vs@,
                lead,
                typed_first,
                typed_rest,
            ),
    {
        let ghost w0 = *self;
        let mut k: usize = 0;
        while k < vs.len()
            invariant
                k <= vs@.len(),
                self.keeps_names(w0),
                forall|j: int|
                    0 <= j < vs@.len() ==> value_usable(w0.unit@, #[trigger] vs@[j]) && w0.value_names().contains_key(
                        vs@[j].0,
                    ),
                self.text@ == w0.text@ + uses_text(
                    w0.unit@,
                    w0.value_names(),
                    vs@.subrange(0, k as int),
                    lead,
                    typed_first,
                    typed_rest,
                ),
            decreases vs@.len() - k,
        {
            let ghost t1 = self.text@;
            if k > 0 || lead {
                self.put(", ");
            }
            let typed = if k == 0 {
                typed_first
            } else {
                typed_rest
            };
            assert(value_usable(w0.unit@, vs@[k as int]));
            self.put_use(vs[k], typed);
            proof {
                reveal_strlit(", ");
                let s1 = vs@.subrange(0, k + 1);
                assert(s1.drop_last() =~= vs@.subrange(0, k as int));
                assert(s1.last() == vs@[k as int]);
                assert(self.text@ =~= w0.text@ + uses_text(
                    w0.unit@,
                    w0.value_names(),
                    s1,
                    lead,
                    typed_first,
                    typed_rest,
                ));
            }
            k = k + 1;
        }
        proof {
            assert(vs@.subrange(0, vs@.len() as int) =~= vs@);
        }
    }

    /// Append immediates, each led by a comma.
    fn put_imms(&mut self, imms: &Vec<usize>)
        ensures
            final(self).keeps_names(*old(self)),
            final(self).text@ == old(self).text@ + imms_text(imms@),
    {
        let ghost w0 = *self;
        let mut k: usize = 0;
        while k < imms.len()
            invariant
                k <= imms@.len(),
                self.keeps_names(w0),
                self.text@ == w0.text@ + imms_text(imms@.subrange(0, k as int)),
            decreases imms@.len() - k,
        {
            self.put(", ");
            push_decimal(&mut self.text, imms[k] as u128);
            proof {
                reveal_strlit(", ");
                let s1 = imms@.subrange(0, k + 1);
                assert(s1.drop_last() =~= imms@.subrange(0, k as int));
                assert(self.text@ =~= w0.text@ + imms_text(s1));
            }
            k = k + 1;
        }
        proof {
            assert(imms@.subrange(0, imms@.len() as int) =~= imms@);
        }
    }

    /// Append the triggers of a register instruction.
    fn put_triggers(&mut self, ts: &Vec<RegTrigger>)
        requires
            forall|k: int|
                0 <= k < ts@.len() ==> {
                    &&& value_usable(old(self).unit@, (#[trigger] ts@[k]).data)
                    &&& old(self).value_names().contains_key(ts@[k].data.0)
                    &&& value_usable(old(self).unit@, ts@[k].trigger)
                    &&& old(self).value_names().contains_key(ts@[k].trigger.0)
                    &&& ts@[k].gate is Some ==> value_usable(old(self).unit@, ts@[k].gate->0)
                        && old(self).value_names().contains_key((ts@[k].gate->0).0)
                },
        ensures
            final(self).keeps_names(*old(self)),
            final(self).text@ == old(self).text@ + triggers_text(old(self).unit@, old(self).value_names(), ts@),
    {
        let ghost w0 = *self;
        let mut k: usize = 0;
        while k < ts.len()
            invariant
                k <= ts@.len(),
                self.keeps_names(w0),
                forall|j: int|
                    0 <= j < ts@.len() ==> {
                        &&& value_usable(w0.unit@, (#[trigger] ts@[j]).data)
                        &&& w0.value_names().contains_key(ts@[j].data.0)
                        &&& value_usable(w0.unit@, ts@[j].trigger)
                        &&& w0.value_names().contains_key(ts@[j].trigger.0)
                        &&& ts@[j].gate is Some ==> value_usable(w0.unit@, ts@[j].gate->0)
                            && w0.value_names().contains_key((ts@[j].gate->0).0)
                    },
                self.text@ == w0.text@ + triggers_text(w0.unit@, w0.value_names(), ts@.subrange(0, k as int)),
            decreases ts@.len() - k,
        {
            let t = ts[k];
            assert(t == ts@[k as int]);
            let ghost t1 = self.text@;
            self.put(", [");
            self.put_use(t.data, false);
            self.put(", ");
            self.put(t.mode.as_str());
            self.put(" ");
            self.put_use(t.trigger, false);
            let ghost t2 = self.text@;
            match t.gate {
                Some(g) => {
                    self.put(", if ");
                    self.put_use(g, false);
                },
                None => {},
            }
            let ghost t3 = self.text@;
            self.put("]");
            proof {
                reveal_strlit(", [");
                reveal_strlit(", ");
                reveal_strlit(" ");
                reveal_strlit(", if ");
                reveal_strlit("]");
                let gate_text = match t.gate {
                    Some(g) => ", if "@ + use_text(w0.unit@, w0.value_names(), g, false),
                    None => Seq::<char>::empty(),
                };
                assert(t3 =~= t2 + gate_text);
                assert(self.text@ =~= t1 + trigger_text(w0.unit@, w0.value_names(), t));
                let s1 = ts@.subrange(0, k + 1);
                assert(s1.drop_last() =~= ts@.subrange(0, k as int));
                assert(self.text@ =~= w0.text@ + triggers_text(w0.unit@, w0.value_names(), s1));
            }
            k = k + 1;
        }
        proof {
            assert(ts@.subrange(0, ts@.len() as int) =~= ts@);
        }
    }

    /// Append the incoming value and block pairs of a phi instruction.
    fn put_phi(&mut self, args: &Vec<Value>, bbs: &Vec<Block>)
        requires
            forall|k: int|
                0 <= k < min_nat(args@.len(), bbs@.len()) ==> value_usable(old(self).unit@, #[trigger] args@[k])
                    && old(self).value_names().contains_key(args@[k].0),
            forall|k: int|
                0 <= k < min_nat(args@.len(), bbs@.len()) ==> old(self).block_names().contains_key(
                    (#[trigger] bbs@[k]).0,
                ),
        ensures
            final(self).keeps_names(*old(self)),
            final(self).text@ == old(self).text@ + phi_text(
                old(self).unit@,
                old(self).value_names(),
                old(self).block_names(),
                args@,
                bbs@,
                min_nat(args@.len(), bbs@.len()),
            ),
    {
        let ghost w0 = *self;
        let n = if args.len() <= bbs.len() {
            args.len()
        } else {
            bbs.len()
        };
        let mut k: usize = 0;
        while k < n
            invariant
                n == min_nat(args@.len(), bbs@.len()),
                k <= n,
                self.keeps_names(w0),
                forall|j: int|
                    0 <= j < n ==> value_usable(w0.unit@, #[trigger] args@[j]) && w0.value_names().contains_key(
                        args@[j].0,
                    ),
                forall|j: int| 0 <= j < n ==> w0.block_names().contains_key((#[trigger] bbs@[j]).0),
                self.text@ == w0.text@ + phi_text(w0.unit@, w0.value_names(), w0.block_names(), args@, bbs@, k as nat),
            decreases n - k,
        {
            let ghost t1 = self.text@;
            if k > 0 {
                self.put(", ");
            }
            self.put("[");
            assert(value_usable(w0.unit@, args@[k as int]));
            assert(w0.block_names().contains_key(bbs@[k as int].0));
            self.put_use(args[k], false);
            self.put(", ");
            self.put_block(bbs[k]);
            self.put("]");
            proof {
                reveal_strlit(", ");
                reveal_strlit("[");
                reveal_strlit("]");
                assert(self.text@ =~= w0.text@ + phi_text(
                    w0.unit@,
                    w0.value_names(),
                    w0.block_names(),
                    args@,
                    bbs@,
                    (k + 1) as nat,
                ));
            }
            k = k + 1;
        }
    }
}

} // verus!

verus! {

impl<'a> UnitWriter<'a> {
    /// Pick names for values, in order, unless they have one.
    fn name_values(&mut self, vs: &Vec<Value>)
        requires
            old(self).wf(),
            forall|k: int| 0 <= k < vs@.len() ==> old(self).unit@.spec_value(#[trigger] vs@[k]) is Some,
        ensures
            final(self).wf(),
            final(self).grows(*old(self)),
            final(self).block_names == old(self).block_names,
            forall|k: int| 0 <= k < vs@.len() ==> final(self).value_names().contains_key((#[trigger] vs@[k]).0),
    {
        let ghost w0 = *self;
        let mut k: usize = 0;
        while k < vs.len()
            invariant
                k <= vs@.len(),
                self.wf(),
                self.grows(w0),
                self.block_names == w0.block_names,
                forall|j: int| 0 <= j < vs@.len() ==> w0.unit@.spec_value(#[trigger] vs@[j]) is Some,
                forall|j: int| 0 <= j < k ==> self.value_names().contains_key((#[trigger] vs@[j]).0),
            decreases vs@.len() - k,
        {
            let ghost vn1 = self.value_names();
            assert(w0.unit@.spec_value(vs@[k as int]) is Some);
            self.name_value(vs[k]);
            proof {
                vstd::map_lib::lemma_submap_of_trans(w0.value_names(), vn1, self.value_names());
                assert forall|j: int| 0 <= j < k + 1 implies self.value_names().contains_key((#[trigger] vs@[j]).0) by {
                    if j < k {
                        assert(vn1.contains_key(vs@[j].0));
                    }
                }
            }
            k = k + 1;
        }
    }

    /// Pick names for the values of register triggers, in order.
    fn name_triggers(&mut self, ts: &Vec<RegTrigger>)
        requires
            old(self).wf(),
            forall|k: int|
                0 <= k < ts@.len() ==> {
                    &&& old(self).unit@.spec_value((#[trigger] ts@[k]).data) is Some
                    &&& old(self).unit@.spec_value(ts@[k].trigger) is Some
                    &&& ts@[k].gate is Some ==> old(self).unit@.spec_value(ts@[k].gate->0) is Some
                },
        ensures
            final(self).wf(),
            final(self).grows(*old(self)),
            final(self).block_names == old(self).block_names,
            forall|k: int|
                0 <= k < ts@.len() ==> {
                    &&& final(self).value_names().contains_key((#[trigger] ts@[k]).data.0)
                    &&& final(self).value_names().contains_key(ts@[k].trigger.0)
                    &&& ts@[k].gate is Some ==> final(self).value_names().contains_key((ts@[k].gate->0).0)
                },
    {
        let ghost w0 = *self;
        let mut k: usize = 0;
        while k < ts.len()
            invariant
                k <= ts@.len(),
                self.wf(),
                self.grows(w0),
                self.block_names == w0.block_names,
                forall|j: int|
                    0 <= j < ts@.len() ==> {
                        &&& w0.unit@.spec_value((#[trigger] ts@[j]).data) is Some
                        &&& w0.unit@.spec_value(ts@[j].trigger) is Some
                        &&& ts@[j].gate is Some ==> w0.unit@.spec_value(ts@[j].gate->0) is Some
                    },
                forall|j: int|
                    0 <= j < k ==> {
                        &&& self.value_names().contains_key((#[trigger] ts@[j]).data.0)
                        &&& self.value_names().contains_key(ts@[j].trigger.0)
                        &&& ts@[j].gate is Some ==> self.value_names().contains_key((ts@[j].gate->0).0)
                    },
            decreases ts@.len() - k,
        {
            let t = ts[k];
            assert(t == ts@[k as int]);
            let ghost vn1 = self.value_names();
            self.name_value(t.data);
            let ghost vn2 = self.value_names();
            self.name_value(t.trigger);
            let ghost vn3 = self.value_names();
            match t.gate {
                Some(g) => self.name_value(g),
                None => {},
            }
            proof {
                vstd::map_lib::lemma_submap_of_trans(vn1, vn2, vn3);
                vstd::map_lib::lemma_submap_of_trans(vn1, vn3, self.value_names());
                vstd::map_lib::lemma_submap_of_trans(vn2, vn3, self.value_names());
                vstd::map_lib::lemma_submap_of_trans(w0.value_names(), vn1, self.value_names());
                assert forall|j: int| 0 <= j < k + 1 implies {
                    &&& self.value_names().contains_key((#[trigger] ts@[j]).data.0)
                    &&& self.value_names().contains_key(ts@[j].trigger.0)
                    &&& ts@[j].gate is Some ==> self.value_names().contains_key((ts@[j].gate->0).0)
                } by {
                    if j < k {
                        assert(vn1.contains_key(ts@[j].data.0));
                        assert(vn1.contains_key(ts@[j].trigger.0));
                        if ts@[j].gate is Some {
                            assert(vn1.contains_key((ts@[j].gate->0).0));
                        }
                    } else {
                        assert(vn2.contains_key(t.data.0));
                        assert(vn3.contains_key(t.trigger.0));
                    }
                }
            }
            k = k + 1;
        }
    }

    /// Pick names for the incoming value and block pairs of a phi
    /// instruction, in order.
    fn name_phi(&mut self, args: &Vec<Value>, bbs: &Vec<Block>)
        requires
            old(self).wf(),
            forall|k: int|
                0 <= k < min_nat(args@.len(), bbs@.len()) ==> old(self).unit@.spec_value(#[trigger] args@[k]) is Some,
            forall|k: int|
                0 <= k < min_nat(args@.len(), bbs@.len()) ==> old(self).unit@.spec_block(#[trigger] bbs@[k]) is Some,
        ensures
            final(self).wf(),
            final(self).grows(*old(self)),
            forall|k: int|
                0 <= k < min_nat(args@.len(), bbs@.len()) ==> final(self).value_names().contains_key(
                    (#[trigger] args@[k]).0,
                ),
            forall|k: int|
                0 <= k < min_nat(args@.len(), bbs@.len()) ==> final(self).block_names().contains_key(
                    (#[trigger] bbs@[k]).0,
                ),
    {
        let ghost w0 = *self;
        let n = if args.len() <= bbs.len() {
            args.len()
        } else {
            bbs.len()
        };
        let mut k: usize = 0;
        while k < n
            invariant
                n == min_nat(args@.len(), bbs@.len()),
                k <= n,
                self.wf(),
                self.grows(w0),
                forall|j: int| 0 <= j < n ==> w0.unit@.spec_value(#[trigger] args@[j]) is Some,
                forall|j: int| 0 <= j < n ==> w0.unit@.spec_block(#[trigger] bbs@[j]) is Some,
                forall|j: int| 0 <= j < k ==> self.value_names().contains_key((#[trigger] args@[j]).0),
                forall|j: int| 0 <= j < k ==> self.block_names().contains_key((#[trigger] bbs@[j]).0),
            decreases n - k,
        {
            let ghost vn1 = self.value_names();
            let ghost bn1 = self.block_names();
            assert(w0.unit@.spec_value(args@[k as int]) is Some);
            assert(w0.unit@.spec_block(bbs@[k as int]) is Some);
            self.name_value(args[k]);
            let ghost vn2 = self.value_names();
            self.name_block(bbs[k]);
            proof {
                vstd::map_lib::lemma_submap_of_trans(w0.value_names(), vn1, self.value_names());
                vstd::map_lib::lemma_submap_of_trans(w0.block_names(), bn1, self.block_names());
                assert forall|j: int| 0 <= j < k + 1 implies self.value_names().contains_key((#[trigger] args@[j]).0) by {
                    if j < k {
                        assert(vn1.contains_key(args@[j].0));
                    }
                }
                assert forall|j: int| 0 <= j < k + 1 implies self.block_names().contains_key((#[trigger] bbs@[j]).0) by {
                    if j < k {
                        assert(bn1.contains_key(bbs@[j].0));
                    }
                }
            }
            k = k + 1;
        }
    }
}

} // verus!

verus! {

/// The values of `vs` from index `from` on.
fn values_from(vs: &Vec<Value>, from: usize) -> (r: Vec<Value>)
    requires
        from <= vs@.len(),
    ensures
        r@ == vs@.subrange(from as int, vs@.len() as int),
{
    let mut r: Vec<Value> = Vec::new();
    let mut k = from;
    while k < vs.len()
        invariant
            from <= k <= vs@.len(),
            r@ == vs@.subrange(from as int, k as int),
        decreases vs@.len() - k,
    {
        r.push(vs[k]);
        k = k + 1;
        proof {
            assert(r@ =~= vs@.subrange(from as int, k as int));
        }
    }
    r
}

impl<'a> UnitWriter<'a> {
    /// Pick names for the values of a register instruction, in the order
    /// its text names them.
    fn name_reg(&mut self, inst: Inst)
        requires
            old(self).wf(),
            inst_writable(old(self).unit@, inst),
            old(self).unit@.spec_inst(inst)->0.spec_opcode() == Opcode::Reg,
        ensures
            final(self).wf(),
            final(self).grows(*old(self)),
            forall|k: int|
                0 <= k < old(self).unit@.spec_inst(inst)->0.spec_args().len() && arg_used(
                    old(self).unit@.spec_inst(inst)->0,
                    k,
                ) ==> final(self).value_names().contains_key(
                    (#[trigger] old(self).unit@.spec_inst(inst)->0.spec_args()[k]).0,
                ),
    {
        let ghost w0 = *self;
        let ghost d = self.unit@;
        let unit = self.unit;
        let data = unit.inst_data(inst);
        let args = data.args();
        let ts = data.triggers();
        let ghost n = reg_modes(*data).len();
        proof {
            assert(args@.len() == 3 * n + 1);
            assert(arg_used(*data, 0));
            assert forall|k: int|
                0 <= k < ts@.len() implies {
                &&& d.spec_value((#[trigger] ts@[k]).data) is Some
                &&& d.spec_value(ts@[k].trigger) is Some
                &&& ts@[k].gate is Some ==> d.spec_value(ts@[k].gate->0) is Some
            } by {
                assert(arg_used(*data, 1 + k));
                assert(arg_used(*data, 1 + n + k));
                assert(value_usable(d, args@[1 + k]));
                assert(value_usable(d, args@[1 + n + k]));
                if ts@[k].gate is Some {
                    assert(args@[1 + 2 * n + k].0 != u32::MAX);
                    assert(arg_used(*data, 1 + 2 * n + k));
                    assert(value_usable(d, args@[1 + 2 * n + k]));
                }
            }
        }
        self.name_value(args[0]);
        let ghost w1 = *self;
        self.name_triggers(&ts);
        proof {
            vstd::map_lib::lemma_submap_of_trans(w0.value_names(), w1.value_names(), self.value_names());
            assert(self.value_names().contains_key(args@[0].0));
            assert forall|k: int| 0 <= k < args@.len() && arg_used(*data, k) implies self.value_names().contains_key(
                (#[trigger] args@[k]).0,
            ) by {
                if k == 0 {
                } else if k < 1 + n {
                    assert(ts@[k - 1].data == args@[k]);
                } else if k < 1 + 2 * n {
                    assert(ts@[k - 1 - n].trigger == args@[k]);
                } else {
                    assert(ts@[k - 1 - 2 * n].gate == Some(args@[k]));
                }
            }
        }
    }

    /// Pick names for the result of an instruction and for every value and
    /// block its text refers to, in the order the text names them.
    fn name_refs(&mut self, inst: Inst)
        requires
            old(self).wf(),
            inst_writable(old(self).unit@, inst),
        ensures
            final(self).wf(),
            final(self).grows(*old(self)),
            refs_named(final(self).unit@, inst, final(self).value_names(), final(self).block_names()),
    {
        let ghost w0 = *self;
        let ghost d = self.unit@;
        let unit = self.unit;
        let data = unit.inst_data(inst);
        proof {
            d.lemma_values_consistent();
        }
        if unit.has_result(inst) {
            let v = unit.inst_result(inst);
            self.name_value(v);
        }
        let ghost w1 = *self;
        let op = data.opcode();
        let args = data.args();
        let bbs = data.blocks();
        match op {
            Opcode::ConstInt | Opcode::ConstTime | Opcode::Halt | Opcode::Ret => {},
            Opcode::ArrayUniform => {
                assert(arg_used(*data, 0));
                self.name_value(args[0]);
            },
            Opcode::DrvCond => {
                assert(arg_used(*data, 0) && arg_used(*data, 1) && arg_used(*data, 2) && arg_used(*data, 3));
                assert(value_usable(d, args@[0]) && value_usable(d, args@[1]));
                assert(value_usable(d, args@[2]) && value_usable(d, args@[3]));
                self.name_value(args[0]);
                self.name_value(args[3]);
                self.name_value(args[1]);
                self.name_value(args[2]);
            },
            Opcode::Reg => {
                self.name_reg(inst);
            },
            Opcode::Call => {
                let ins = data.input_args();
                proof {
                    assert forall|k: int| 0 <= k < ins@.len() implies d.spec_value(#[trigger] ins@[k]) is Some by {
                        assert(ins@[k] == args@[k]);
                        assert(arg_used(*data, k));
                        assert(value_usable(d, args@[k]));
                    }
                }
                self.name_values(&ins);
                proof {
                    assert forall|k: int| 0 <= k < args@.len() && arg_used(*data, k) implies self.value_names().contains_key(
                        (#[trigger] args@[k]).0,
                    ) by {
                        assert(ins@[k] == args@[k]);
                    }
                }
            },
            Opcode::Phi => {
                proof {
                    assert forall|k: int| 0 <= k < min_nat(args@.len(), bbs@.len()) implies d.spec_value(
                        #[trigger] args@[k],
                    ) is Some by {
                        assert(arg_used(*data, k));
                        assert(value_usable(d, args@[k]));
                    }
                    assert forall|k: int| 0 <= k < min_nat(args@.len(), bbs@.len()) implies d.spec_block(
                        #[trigger] bbs@[k],
                    ) is Some by {
                        assert(block_used(*data, k));
                    }
                }
                self.name_phi(&args, &bbs);
            },
            Opcode::BrCond => {
                assert(arg_used(*data, 0) && block_used(*data, 0) && block_used(*data, 1));
                assert(value_usable(d, args@[0]));
                assert(d.spec_block(bbs@[0]) is Some && d.spec_block(bbs@[1]) is Some);
                self.name_value(args[0]);
                self.name_block(bbs[0]);
                self.name_block(bbs[1]);
            },
            Opcode::Br => {
                assert(block_used(*data, 0));
                assert(d.spec_block(bbs@[0]) is Some);
                self.name_block(bbs[0]);
            },
            Opcode::Wait | Opcode::WaitTime => {
                assert(block_used(*data, 0));
                assert(d.spec_block(bbs@[0]) is Some);
                self.name_block(bbs[0]);
                proof {
                    assert forall|k: int| 0 <= k < args@.len() implies d.spec_value(#[trigger] args@[k]) is Some by {
                        assert(arg_used(*data, k));
                        assert(value_usable(d, args@[k]));
                    }
                }
                self.name_values(&args);
            },
            _ => {
                proof {
                    assert forall|k: int| 0 <= k < args@.len() implies d.spec_value(#[trigger] args@[k]) is Some by {
                        assert(arg_used(*data, k));
                        assert(value_usable(d, args@[k]));
                    }
                }
                self.name_values(&args);
            },
        }
        proof {
            vstd::map_lib::lemma_submap_of_trans(w0.value_names(), w1.value_names(), self.value_names());
            vstd::map_lib::lemma_submap_of_trans(w0.block_names(), w1.block_names(), self.block_names());
            if d.spec_result(inst) is Some {
                assert(w1.value_names().contains_key((d.spec_result(inst)->0).0));
            }
            assert forall|k: int| 0 <= k < bbs@.len() && block_used(*data, k) implies self.block_names().contains_key(
                (#[trigger] bbs@[k]).0,
            ) by {
            }
        }
    }
}

} // verus!

verus! {

impl<'a> UnitWriter<'a> {
    /// Append an instruction's text after its result, with the names picked
    /// so far; the ghost result stands for the digits of an integer
    /// constant.
    #[verifier::rlimit(60)]
    #[verifier::spinoff_prover]
    fn put_body(&mut self, inst: Inst) -> (c: Ghost<Seq<char>>)
        requires
            old(self).unit@.wf(),
            inst_writable(old(self).unit@, inst),
            refs_named(old(self).unit@, inst, old(self).value_names(), old(self).block_names()),
        ensures
            final(self).keeps_names(*old(self)),
            final(self).text@ == old(self).text@ + inst_body_text(
                old(self).unit@,
                inst,
                old(self).value_names(),
                old(self).block_names(),
                c@,
            ),
            c@ == const_text(old(self).unit@, inst),
    {
        let ghost w0 = *self;
        let ghost d = self.unit@;
        let ghost vn = self.value_names();
        let ghost bn = self.block_names();
        let unit = self.unit;
        let data = unit.inst_data(inst);
        let op = data.opcode();
        let args = data.args();
        let bbs = data.blocks();
        let imms = data.imms();
        let ghost mut c: Seq<char> = Seq::empty();
        proof {
            d.lemma_values_consistent();
            reveal_strlit(" ");
            reveal_strlit(", ");
            reveal_strlit("[");
            reveal_strlit("]");
        }
        match op {
            Opcode::ConstInt => {
                let t = unit.inst_type(inst);
                self.put("const ");
                write_type(&mut self.text, &t);
                self.put(" ");
                match data {
                    InstData::ConstInt { imm, .. } => {
                        self.put(imm.text());
                        proof {
                            c = imm.spec_text();
                        }
                    },
                    _ => {},
                }
                proof {
                    reveal_strlit("const ");
                }
            },
            Opcode::ConstTime => {
                self.put("const time ");
                match data {
                    InstData::ConstTime { imm, .. } => {
                        let s = imm.to_string();
                        self.put(s.as_str());
                    },
                    _ => {},
                }
                proof {
                    reveal_strlit("const time ");
                }
            },
            Opcode::ArrayUniform => {
                assert(arg_used(*data, 0));
                assert(value_usable(d, args@[0]) && vn.contains_key(args@[0].0));
                self.put("[");
                push_decimal(&mut self.text, imms[0] as u128);
                self.put(" x ");
                self.put_use(args[0], true);
                self.put("]");
                proof {
                    reveal_strlit(" x ");
                }
            },
            Opcode::Array | Opcode::Struct => {
                proof {
                    assert forall|k: int| 0 <= k < args@.len() implies value_usable(d, #[trigger] args@[k])
                        && vn.contains_key(args@[k].0) by {
                        assert(arg_used(*data, k));
                    }
                }
                if op == Opcode::Array {
                    self.put("[");
                    self.put_uses(&args, false, true, false);
                    self.put("]");
                } else {
                    self.put("{");
                    self.put_uses(&args, false, true, true);
                    self.put("}");
                    proof {
                        reveal_strlit("{");
                        reveal_strlit("}");
                    }
                }
            },
            Opcode::DrvCond => {
                assert(arg_used(*data, 0) && arg_used(*data, 1) && arg_used(*data, 2) && arg_used(*data, 3));
                assert(value_usable(d, args@[0]) && value_usable(d, args@[1]));
                assert(value_usable(d, args@[2]) && value_usable(d, args@[3]));
                assert(vn.contains_key(args@[0].0) && vn.contains_key(args@[1].0));
                assert(vn.contains_key(args@[2].0) && vn.contains_key(args@[3].0));
                self.put("drv ");
                self.put_use(args[0], true);
                self.put(" if ");
                self.put_use(args[3], false);
                self.put(", ");
                self.put_use(args[1], false);
                self.put(", ");
                self.put_use(args[2], false);
                proof {
                    reveal_strlit("drv ");
                    reveal_strlit(" if ");
                }
            },
            Opcode::Reg => {
                let ts = data.triggers();
                let ghost n = reg_modes(*data).len();
                proof {
                    assert(args@.len() == 3 * n + 1);
                    assert(arg_used(*data, 0));
                    assert(value_usable(d, args@[0]) && vn.contains_key(args@[0].0));
                    assert forall|k: int|
                        0 <= k < ts@.len() implies {
                        &&& value_usable(d, (#[trigger] ts@[k]).data)
                        &&& vn.contains_key(ts@[k].data.0)
                        &&& value_usable(d, ts@[k].trigger)
                        &&& vn.contains_key(ts@[k].trigger.0)
                        &&& ts@[k].gate is Some ==> value_usable(d, ts@[k].gate->0) && vn.contains_key(
                            (ts@[k].gate->0).0,
                        )
                    } by {
                        assert(arg_used(*data, 1 + k));
                        assert(arg_used(*data, 1 + n + k));
                        assert(value_usable(d, args@[1 + k]) && vn.contains_key(args@[1 + k].0));
                        assert(value_usable(d, args@[1 + n + k]) && vn.contains_key(args@[1 + n + k].0));
                        if ts@[k].gate is Some {
                            assert(args@[1 + 2 * n + k].0 != u32::MAX);
                            assert(arg_used(*data, 1 + 2 * n + k));
                            assert(value_usable(d, args@[1 + 2 * n + k]) && vn.contains_key(args@[1 + 2 * n + k].0));
                        }
                    }
                }
                self.put("reg ");
                self.put_use(args[0], true);
                self.put_triggers(&ts);
                proof {
                    reveal_strlit("reg ");
                    match data {
                        InstData::Reg { args: ra, modes, .. } => {
                            assert(ts@ =~= Seq::new(modes@.len(), |i: int| reg_trigger(ra@, modes@, i)));
                        },
                        _ => {},
                    }
                }
            },
            Opcode::Shl | Opcode::Shr | Opcode::Mux | Opcode::InsField | Opcode::InsSlice => {
                proof {
                    assert forall|k: int| 0 <= k < args@.len() implies value_usable(d, #[trigger] args@[k])
                        && vn.contains_key(args@[k].0) by {
                        assert(arg_used(*data, k));
                    }
                }
                self.put(op.as_str());
                self.put(" ");
                self.put_uses(&args, false, true, true);
                if op == Opcode::InsField || op == Opcode::InsSlice {
                    self.put_imms(&imms);
                }
            },
            Opcode::ExtField | Opcode::ExtSlice => {
                proof {
                    assert forall|k: int| 0 <= k < args@.len() implies value_usable(d, #[trigger] args@[k])
                        && vn.contains_key(args@[k].0) by {
                        assert(arg_used(*data, k));
                    }
                }
                let t = unit.inst_type(inst);
                self.put(op.as_str());
                self.put(" ");
                write_type(&mut self.text, &t);
                self.put_uses(&args, true, true, true);
                self.put_imms(&imms);
            },
            Opcode::Call | Opcode::Inst => {
                match data {
                    InstData::Call { unit: ext, .. } => {
                        let ins = data.input_args();
                        let outs = data.output_args();
                        proof {
                            assert forall|k: int| 0 <= k < ins@.len() implies value_usable(d, #[trigger] ins@[k])
                                && vn.contains_key(ins@[k].0) by {
                                assert(ins@[k] == args@[k]);
                                assert(arg_used(*data, k));
                            }
                        }
                        let name = unit.extern_name(*ext);
                        if op == Opcode::Call {
                            let t = unit.inst_type(inst);
                            self.put("call ");
                            write_type(&mut self.text, &t);
                            self.put(" ");
                            write_unit_name(&mut self.text, name);
                            self.put(" (");
                            self.put_uses(&ins, false, true, true);
                            self.put(")");
                            proof {
                                reveal_strlit("call ");
                                reveal_strlit(" (");
                                reveal_strlit(")");
                            }
                        } else {
                            proof {
                                assert forall|k: int| 0 <= k < outs@.len() implies value_usable(
                                    d,
                                    #[trigger] outs@[k],
                                ) && vn.contains_key(outs@[k].0) by {
                                    let ghost ins_n = ins@.len() as int;
                                    assert(outs@[k] == args@[ins_n + k]);
                                    assert(arg_used(*data, ins_n + k));
                                }
                            }
                            self.put("inst ");
                            write_unit_name(&mut self.text, name);
                            self.put(" (");
                            self.put_uses(&ins, false, true, true);
                            self.put(") -> (");
                            self.put_uses(&outs, false, true, true);
                            self.put(")");
                            proof {
                                reveal_strlit("inst ");
                                reveal_strlit(" (");
                                reveal_strlit(") -> (");
                                reveal_strlit(")");
                            }
                        }
                    },
                    _ => {},
                }
            },
            Opcode::Halt | Opcode::Ret => {
                self.put(op.as_str());
            },
            Opcode::Phi => {
                proof {
                    assert forall|k: int| 0 <= k < min_nat(args@.len(), bbs@.len()) implies value_usable(
                        d,
                        #[trigger] args@[k],
                    ) && vn.contains_key(args@[k].0) by {
                        assert(arg_used(*data, k));
                    }
                    assert forall|k: int| 0 <= k < min_nat(args@.len(), bbs@.len()) implies bn.contains_key(
                        (#[trigger] bbs@[k]).0,
                    ) by {
                        assert(block_used(*data, k));
                    }
                }
                let v = unit.inst_result(inst);
                let t = unit.value_type(v);
                self.put("phi ");
                write_type(&mut self.text, &t);
                self.put(" ");
                self.put_phi(&args, &bbs);
                proof {
                    reveal_strlit("phi ");
                }
            },
            Opcode::Br => {
                assert(block_used(*data, 0));
                assert(bn.contains_key(bbs@[0].0));
                self.put("br ");
                self.put_block(bbs[0]);
                proof {
                    reveal_strlit("br ");
                }
            },
            Opcode::BrCond => {
                assert(arg_used(*data, 0) && block_used(*data, 0) && block_used(*data, 1));
                assert(value_usable(d, args@[0]) && vn.contains_key(args@[0].0));
                assert(bn.contains_key(bbs@[0].0) && bn.contains_key(bbs@[1].0));
                self.put("br ");
                self.put_use(args[0], false);
                self.put(", ");
                self.put_block(bbs[0]);
                self.put(", ");
                self.put_block(bbs[1]);
                proof {
                    reveal_strlit("br ");
                }
            },
            Opcode::Wait | Opcode::WaitTime => {
                assert(block_used(*data, 0));
                assert(bn.contains_key(bbs@[0].0));
                proof {
                    assert forall|k: int| 0 <= k < args@.len() implies value_usable(d, #[trigger] args@[k])
                        && vn.contains_key(args@[k].0) by {
                        assert(arg_used(*data, k));
                    }
                }
                self.put("wait ");
                self.put_block(bbs[0]);
                if op == Opcode::Wait {
                    self.put_uses(&args, true, false, false);
                } else {
                    let rest = values_from(&args, 1);
                    self.put(" for ");
                    self.put_use(args[0], false);
                    proof {
                        assert forall|k: int| 0 <= k < rest@.len() implies value_usable(d, #[trigger] rest@[k])
                            && vn.contains_key(rest@[k].0) by {
                            assert(rest@[k] == args@[k + 1]);
                        }
                    }
                    self.put_uses(&rest, true, false, false);
                    proof {
                        reveal_strlit(" for ");
                    }
                }
                proof {
                    reveal_strlit("wait ");
                }
            },
            _ => {
                proof {
                    assert forall|k: int| 0 <= k < args@.len() implies value_usable(d, #[trigger] args@[k])
                        && vn.contains_key(args@[k].0) by {
                        assert(arg_used(*data, k));
                    }
                }
                self.put(op.as_str());
                self.put(" ");
                self.put_uses(&args, false, true, false);
            },
        }
        proof {
            assert(self.text@ =~= w0.text@ + inst_body_text(d, inst, vn, bn, c));
        }
        Ghost(c)
    }
}

} // verus!

verus! {

impl<'a> UnitWriter<'a> {
    /// Emit the name of a value, picking one first if it has none.
    pub fn write_value_name(&mut self, value: Value)
        requires
            old(self).wf(),
            old(self).spec_unit().spec_value(value) is Some,
        ensures
            final(self).wf(),
            final(self).spec_unit() == old(self).spec_unit(),
            final(self).block_names() == old(self).block_names(),
            final(self).value_names().contains_key(value.0),
            old(self).value_names().submap_of(final(self).value_names()),
            old(self).value_names().contains_key(value.0) ==> final(self).value_names() == old(self).value_names()
                && final(self).spec_table() == old(self).spec_table(),
            !old(self).value_names().contains_key(value.0) ==> uniquified(
                old(self).spec_table(),
                final(self).spec_table(),
                name_view(old(self).spec_unit().spec_value_name(value)),
                final(self).value_names()[value.0],
            ),
            final(self).spec_text() == old(self).spec_text() + "%"@ + final(self).value_names()[value.0],
    {
        self.name_value(value);
        self.put("%");
        self.put_value_name(value);
        proof {
            reveal_strlit("%");
        }
    }

    /// Emit the name of a block, picking one first if it has none.
    pub fn write_block_name(&mut self, block: Block)
        requires
            old(self).wf(),
            old(self).spec_unit().spec_block(block) is Some,
        ensures
            final(self).wf(),
            final(self).spec_unit() == old(self).spec_unit(),
            final(self).value_names() == old(self).value_names(),
            final(self).block_names().contains_key(block.0),
            old(self).block_names().submap_of(final(self).block_names()),
            old(self).block_names().contains_key(block.0) ==> final(self).block_names() == old(self).block_names()
                && final(self).spec_table() == old(self).spec_table(),
            !old(self).block_names().contains_key(block.0) ==> uniquified(
                old(self).spec_table(),
                final(self).spec_table(),
                name_view(old(self).spec_unit().spec_block(block)->0.name),
                final(self).block_names()[block.0],
            ),
            final(self).spec_text() == old(self).spec_text() + final(self).block_names()[block.0],
    {
        self.name_block(block);
        self.put_block_name(block);
    }

    /// Emit the name of a block as an instruction refers to it, picking one
    /// first if it has none.
    pub fn write_block_value(&mut self, block: Block)
        requires
            old(self).wf(),
            old(self).spec_unit().spec_block(block) is Some,
        ensures
            final(self).wf(),
            final(self).spec_unit() == old(self).spec_unit(),
            final(self).value_names() == old(self).value_names(),
            final(self).block_names().contains_key(block.0),
            old(self).block_names().submap_of(final(self).block_names()),
            old(self).block_names().contains_key(block.0) ==> final(self).block_names() == old(self).block_names()
                && final(self).spec_table() == old(self).spec_table(),
            !old(self).block_names().contains_key(block.0) ==> uniquified(
                old(self).spec_table(),
                final(self).spec_table(),
                name_view(old(self).spec_unit().spec_block(block)->0.name),
                final(self).block_names()[block.0],
            ),
            final(self).spec_text() == old(self).spec_text() + block_use_text(final(self).block_names(), block),
    {
        self.put("%");
        self.write_block_name(block);
        proof {
            reveal_strlit("%");
        }
    }

    /// Emit a value as an instruction uses it: its type first where
    /// `with_type`, then its name, picking one first if it has none.
    pub fn write_value_use(&mut self, value: Value, with_type: bool)
        requires
            old(self).wf(),
            value_usable(old(self).spec_unit(), value),
        ensures
            final(self).wf(),
            final(self).spec_unit() == old(self).spec_unit(),
            final(self).block_names() == old(self).block_names(),
            final(self).value_names().contains_key(value.0),
            old(self).value_names().submap_of(final(self).value_names()),
            old(self).value_names().contains_key(value.0) ==> final(self).value_names() == old(self).value_names()
                && final(self).spec_table() == old(self).spec_table(),
            !old(self).value_names().contains_key(value.0) ==> uniquified(
                old(self).spec_table(),
                final(self).spec_table(),
                name_view(old(self).spec_unit().spec_value_name(value)),
                final(self).value_names()[value.0],
            ),
            final(self).spec_text() == old(self).spec_text() + use_text(
                final(self).spec_unit(),
                final(self).value_names(),
                value,
                with_type,
            ),
    {
        let ghost t0 = self.text@;
        if with_type {
            let t = self.unit.value_type(value);
            write_type(&mut self.text, &t);
            self.put(" ");
        }
        self.write_value_name(value);
        proof {
            reveal_strlit(" ");
            assert(self.text@ =~= t0 + use_text(self.unit@, self.value_names(), value, with_type));
        }
    }

    /// Emit an instruction: its result's name and `=` if it has one, then
    /// its opcode and operands. Names are picked for the values and blocks
    /// it refers to, in the order its text names them.
    pub fn write_inst(&mut self, inst: Inst)
        requires
            old(self).wf(),
            inst_writable(old(self).spec_unit(), inst),
        ensures
            final(self).wf(),
            final(self).spec_unit() == old(self).spec_unit(),
            old(self).value_names().submap_of(final(self).value_names()),
            old(self).block_names().submap_of(final(self).block_names()),
            refs_named(final(self).spec_unit(), inst, final(self).value_names(), final(self).block_names()),
            final(self).spec_text() == old(self).spec_text() + inst_text(
                final(self).spec_unit(),
                inst,
                final(self).value_names(),
                final(self).block_names(),
                const_text(final(self).spec_unit(), inst),
            ),
    {
        let ghost t0 = self.text@;
        self.name_refs(inst);
        let ghost t1 = self.text@;
        let unit = self.unit;
        if unit.has_result(inst) {
            let v = unit.inst_result(inst);
            self.put("%");
            self.put_value_name(v);
            self.put(" = ");
        }
        let ghost t2 = self.text@;
        let c = self.put_body(inst);
        proof {
            reveal_strlit("%");
            reveal_strlit(" = ");
            let head = match self.unit@.spec_result(inst) {
                Some(v) => "%"@ + self.value_names()[v.0] + " = "@,
                None => Seq::<char>::empty(),
            };
            assert(t2 =~= t0 + head);
            assert(self.text@ =~= t0 + inst_text(self.unit@, inst, self.value_names(), self.block_names(), c@));
        }
    }

    /// The text emitted so far.
    pub fn text(&self) -> (s: &str)
        ensures
            s@ == self.spec_text(),
    {
        self.text.as_str()
    }

    /// Finish emitting and hand out the text.
    pub fn finish(self) -> (s: String)
        ensures
            s@ == self.spec_text(),
    {
        self.text
    }
}

} // verus!

verus! {

impl<'a> UnitWriter<'a> {
    /// Append an instruction's text with the names picked so far; the ghost
    /// result stands for the digits of an integer constant.
    fn put_inst(&mut self, inst: Inst) -> (c: Ghost<Seq<char>>)
        requires
            old(self).wf(),
            inst_writable(old(self).unit@, inst),
            refs_named(old(self).unit@, inst, old(self).value_names(), old(self).block_names()),
        ensures
            final(self).keeps_names(*old(self)),
            final(self).text@ == old(self).text@ + inst_text(
                old(self).unit@,
                inst,
                old(self).value_names(),
                old(self).block_names(),
                c@,
            ),
            c@ == const_text(old(self).unit@, inst),
    {
        let ghost t0 = self.text@;
        let unit = self.unit;
        if unit.has_result(inst) {
            let v = unit.inst_result(inst);
            self.put("%");
            self.put_value_name(v);
            self.put(" = ");
        }
        let ghost t2 = self.text@;
        let c = self.put_body(inst);
        proof {
            reveal_strlit("%");
            reveal_strlit(" = ");
            let head = match self.unit@.spec_result(inst) {
                Some(v) => "%"@ + self.value_names()[v.0] + " = "@,
                None => Seq::<char>::empty(),
            };
            assert(t2 =~= t0 + head);
            assert(self.text@ =~= t0 + inst_text(self.unit@, inst, self.value_names(), self.block_names(), c@));
        }
        c
    }

    /// Append the arguments of the unit's header: the type and the name of
    /// each, separated by commas.
    fn put_header_args(&mut self, args: &Vec<Arg>)
        requires
            old(self).wf(),
            forall|k: int|
                0 <= k < args@.len() ==> old(self).unit@.spec_sig()@.has_arg(#[trigger] args@[k])
                    && old(self).unit@.spec_arg_value(args@[k]) is Some,
            args_named(old(self).unit@, old(self).value_names(), args@),
        ensures
            final(self).keeps_names(*old(self)),
            final(self).text@ == old(self).text@ + header_args_text(old(self).unit@, old(self).value_names(), args@),
    {
        let ghost w0 = *self;
        let ghost d = self.unit@;
        let unit = self.unit;
        let sig = unit.sig();
        let mut k: usize = 0;
        while k < args.len()
            invariant
                k <= args@.len(),
                self.keeps_names(w0),
                d == w0.unit@,
                *sig == d.spec_sig(),
                unit@ == d,
                forall|j: int|
                    0 <= j < args@.len() ==> d.spec_sig()@.has_arg(#[trigger] args@[j]) && d.spec_arg_value(
                        args@[j],
                    ) is Some,
                args_named(d, w0.value_names(), args@),
                self.text@ == w0.text@ + header_args_text(d, w0.value_names(), args@.subrange(0, k as int)),
            decreases args@.len() - k,
        {
            if k > 0 {
                self.put(", ");
            }
            let a = args[k];
            assert(d.spec_sig()@.has_arg(args@[k as int]) && d.spec_arg_value(args@[k as int]) is Some);
            let t = sig.arg_type(a);
            write_type(&mut self.text, &t);
            self.put(" ");
            self.put("%");
            let v = unit.arg_value(a);
            assert(w0.value_names().contains_key((d.spec_arg_value(args@[k as int])->0).0));
            self.put_value_name(v);
            proof {
                reveal_strlit(", ");
                reveal_strlit(" ");
                reveal_strlit("%");
                let s1 = args@.subrange(0, k + 1);
                assert(s1.drop_last() =~= args@.subrange(0, k as int));
                assert(self.text@ =~= w0.text@ + header_args_text(d, w0.value_names(), s1));
            }
            k = k + 1;
        }
        proof {
            assert(args@.subrange(0, args@.len() as int) =~= args@);
        }
    }

    /// Pick names for everything the unit's text refers to, in the order
    /// the text names them.
    fn name_unit(&mut self)
        requires
            old(self).wf(),
            unit_writable(old(self).unit@),
        ensures
            final(self).wf(),
            final(self).grows(*old(self)),
            unit_named(final(self).unit@, final(self).value_names(), final(self).block_names()),
    {
        let ghost w0 = *self;
        let ghost d = self.unit@;
        let unit = self.unit;
        let ghost s = d.spec_sig()@;
        let ins = unit.input_args();
        proof {
            assert forall|k: int| 0 <= k < ins@.len() implies d.spec_value(#[trigger] ins@[k]) is Some by {
                assert(s.all_args()[k] == s.inp[k]);
                d.lemma_listed_arg(k);
            }
        }
        self.name_values(&ins);
        proof {
            assert forall|k: int| 0 <= k < s.inp.len() implies self.value_names().contains_key(
                (#[trigger] d.spec_arg_value(s.inp[k])->0).0,
            ) by {
                assert(ins@[k] == d.spec_arg_value(s.inp[k])->0);
            }
        }
        if !unit.is_function() {
            let ghost vn1 = self.value_names();
            let outs = unit.output_args();
            proof {
                assert forall|k: int| 0 <= k < outs@.len() implies d.spec_value(#[trigger] outs@[k]) is Some by {
                    assert(s.all_args()[s.inp.len() + k] == s.oup[k]);
                    d.lemma_listed_arg(s.inp.len() + k);
                }
            }
            self.name_values(&outs);
            proof {
                assert forall|k: int| 0 <= k < s.oup.len() implies self.value_names().contains_key(
                    (#[trigger] d.spec_arg_value(s.oup[k])->0).0,
                ) by {
                    assert(outs@[k] == d.spec_arg_value(s.oup[k])->0);
                }
                assert forall|k: int| 0 <= k < s.inp.len() implies self.value_names().contains_key(
                    (#[trigger] d.spec_arg_value(s.inp[k])->0).0,
                ) by {
                    assert(vn1.contains_key((d.spec_arg_value(s.inp[k])->0).0));
                }
            }
        }
        let blocks = unit.blocks();
        let ghost bs = d.block_ids();
        let mut bi: usize = 0;
        while bi < blocks.len()
            invariant
                bi <= blocks@.len(),
                blocks@ == as_blocks(bs),
                bs == d.block_ids(),
                d == w0.unit@,
                unit@ == d,
                unit_writable(d),
                self.wf(),
                self.grows(w0),
                args_named(d, self.value_names(), s.inp),
                s == d.spec_sig()@,
                d.spec_kind() != UnitKind::Function ==> args_named(d, self.value_names(), s.oup),
                blocks_named(d, self.value_names(), self.block_names(), bs.subrange(0, bi as int)),
            decreases blocks@.len() - bi,
        {
            let ghost vn0 = self.value_names();
            let ghost bn0 = self.block_names();
            let bb = blocks[bi];
            assert(bb.0 == bs[bi as int]);
            assert(bs.contains(bb.0));
            proof {
                d.lemma_block_bound(bb.0);
            }
            if !unit.is_entity() {
                self.name_block(bb);
            }
            let insts = unit.insts(bb);
            let ghost ids = d.inst_ids(bb);
            let mut ii: usize = 0;
            while ii < insts.len()
                invariant
                    ii <= insts@.len(),
                    insts@ == as_insts(ids),
                    ids == d.inst_ids(bb),
                    bs == d.block_ids(),
                    bs.contains(bb.0),
                    bb.0 == bs[bi as int],
                    bi < bs.len(),
                    d == w0.unit@,
                    unit@ == d,
                    unit_writable(d),
                    s == d.spec_sig()@,
                    self.wf(),
                    self.grows(w0),
                    vn0.submap_of(self.value_names()),
                    bn0.submap_of(self.block_names()),
                    args_named(d, vn0, s.inp),
                    d.spec_kind() != UnitKind::Function ==> args_named(d, vn0, s.oup),
                    blocks_named(d, vn0, bn0, bs.subrange(0, bi as int)),
                    d.spec_kind() != UnitKind::Entity ==> self.block_names().contains_key(bb.0),
                    insts_named(d, self.value_names(), self.block_names(), ids.subrange(0, ii as int)),
                decreases insts@.len() - ii,
            {
                let ghost vn1 = self.value_names();
                let ghost bn1 = self.block_names();
                let inst = insts[ii];
                assert(inst.0 == ids[ii as int]);
                assert(ids.contains(inst.0));
                proof {
                    d.lemma_placed_exists(bb.0, inst.0);
                }
                let data = unit.inst_data(inst);
                if !(unit.is_entity() && data.opcode().is_terminator()) {
                    assert(inst_printed(d, inst.0));
                    assert(Block(bb.0) == bb);
                    assert(d.block_ids().contains(bb.0) && d.inst_ids(Block(bb.0)).contains(inst.0));
                    assert(inst_writable(d, Inst(inst.0)));
                    self.name_refs(inst);
                }
                proof {
                    lemma_insts_named_mono(
                        d,
                        ids.subrange(0, ii as int),
                        vn1,
                        bn1,
                        self.value_names(),
                        self.block_names(),
                    );
                    assert forall|k: int|
                        0 <= k < ids.subrange(0, ii + 1).len() && inst_printed(
                            d,
                            ids.subrange(0, ii + 1)[k],
                        ) implies refs_named(
                        d,
                        Inst(#[trigger] ids.subrange(0, ii + 1)[k]),
                        self.value_names(),
                        self.block_names(),
                    ) by {
                        if k < ii {
                            assert(ids.subrange(0, ii + 1)[k] == ids.subrange(0, ii as int)[k]);
                        }
                    }
                }
                ii = ii + 1;
            }
            proof {
                assert(ids.subrange(0, ii as int) =~= ids);
                lemma_blocks_named_mono(
                    d,
                    bs.subrange(0, bi as int),
                    vn0,
                    bn0,
                    self.value_names(),
                    self.block_names(),
                );
                assert forall|k: int| 0 <= k < bs.subrange(0, bi + 1).len() implies (d.spec_kind()
                    != UnitKind::Entity ==> self.block_names().contains_key(
                    #[trigger] bs.subrange(0, bi + 1)[k],
                )) && insts_named(
                    d,
                    self.value_names(),
                    self.block_names(),
                    d.inst_ids(Block(bs.subrange(0, bi + 1)[k])),
                ) by {
                    if k < bi {
                        assert(bs.subrange(0, bi + 1)[k] == bs.subrange(0, bi as int)[k]);
                    } else {
                        assert(bs.subrange(0, bi + 1)[k] == bb.0);
                    }
                }
                assert forall|k: int| 0 <= k < s.inp.len() implies self.value_names().contains_key(
                    (#[trigger] d.spec_arg_value(s.inp[k])->0).0,
                ) by {
                    assert(vn0.contains_key((d.spec_arg_value(s.inp[k])->0).0));
                }
                if d.spec_kind() != UnitKind::Function {
                    assert forall|k: int| 0 <= k < s.oup.len() implies self.value_names().contains_key(
                        (#[trigger] d.spec_arg_value(s.oup[k])->0).0,
                    ) by {
                        assert(vn0.contains_key((d.spec_arg_value(s.oup[k])->0).0));
                    }
                }
            }
            bi = bi + 1;
        }
        proof {
            assert(bs.subrange(0, bi as int) =~= bs);
        }
    }
}

} // verus!

verus! {

impl<'a> UnitWriter<'a> {
    /// Append the unit's text with the names picked so far; the ghost
    /// result holds the digits of its integer constants.
    #[verifier::rlimit(40)]
    fn put_unit(&mut self)
        requires
            old(self).wf(),
            unit_writable(old(self).unit@),
            unit_named(old(self).unit@, old(self).value_names(), old(self).block_names()),
        ensures
            final(self).keeps_names(*old(self)),
            final(self).text@ == old(self).text@ + unit_text(
                old(self).unit@,
                old(self).value_names(),
                old(self).block_names(),
                const_texts(old(self).unit@),
            ),
    {
        let ghost w0 = *self;
        let ghost d = self.unit@;
        let ghost vn = self.value_names();
        let ghost bn = self.block_names();
        let unit = self.unit;
        let sig = unit.sig();
        let ghost s = d.spec_sig()@;
        proof {
            d.lemma_sig_wf();
            reveal_strlit(" ");
            reveal_strlit(" (");
        }
        self.put(unit.kind().as_str());
        self.put(" ");
        write_unit_name(&mut self.text, unit.name());
        self.put(" (");
        let inputs = sig.inputs();
        proof {
            assert forall|k: int| 0 <= k < inputs@.len() implies d.spec_sig()@.has_arg(#[trigger] inputs@[k])
                && d.spec_arg_value(inputs@[k]) is Some by {
                assert(s.all_args()[k] == s.inp[k]);
                d.lemma_listed_arg(k);
            }
        }
        self.put_header_args(&inputs);
        if unit.is_function() {
            self.put(") ");
            let t = sig.return_type();
            write_type(&mut self.text, &t);
            self.put(" {\n");
            proof {
                reveal_strlit(") ");
                reveal_strlit(" {\n");
            }
        } else {
            self.put(") -> (");
            let outputs = sig.outputs();
            proof {
                assert forall|k: int| 0 <= k < outputs@.len() implies d.spec_sig()@.has_arg(#[trigger] outputs@[k])
                    && d.spec_arg_value(outputs@[k]) is Some by {
                    assert(s.all_args()[s.inp.len() + k] == s.oup[k]);
                    d.lemma_listed_arg(s.inp.len() + k);
                }
            }
            self.put_header_args(&outputs);
            self.put(") {\n");
            proof {
                reveal_strlit(") -> (");
                reveal_strlit(") {\n");
            }
        }
        let ghost t_head = self.text@;
        assert(t_head =~= w0.text@ + unit_header_text(d, vn));
        let blocks = unit.blocks();
        let ghost bs = d.block_ids();
        let ghost cs: Map<u32, Seq<char>> = const_texts(d);
        proof {
            d.lemma_distinct(Block(0));
        }
        let mut bi: usize = 0;
        while bi < blocks.len()
            invariant
                bi <= blocks@.len(),
                blocks@ == as_blocks(bs),
                bs == d.block_ids(),
                bs.no_duplicates(),
                d == w0.unit@,
                unit@ == d,
                vn == w0.value_names(),
                bn == w0.block_names(),
                cs == const_texts(d),
                unit_writable(d),
                unit_named(d, vn, bn),
                self.wf(),
                self.keeps_names(w0),
                self.text@ == t_head + blocks_text(d, vn, bn, cs, bs.subrange(0, bi as int)),
            decreases blocks@.len() - bi,
        {
            let bb = blocks[bi];
            assert(bb.0 == bs[bi as int]);
            assert(bs.contains(bb.0));
            assert(Block(bb.0) == bb);
            let ghost t_before = self.text@;
            if !unit.is_entity() {
                assert(bn.contains_key(bs[bi as int]));
                self.put_block_name(bb);
                self.put(":\n");
                proof {
                    reveal_strlit(":\n");
                }
            }
            let ghost t_blk = self.text@;
            let ghost prev = bs.subrange(0, bi as int);
            let insts = unit.insts(bb);
            let ghost ids = d.inst_ids(bb);
            proof {
                d.lemma_distinct(bb);
            }
            let mut ii: usize = 0;
            while ii < insts.len()
                invariant
                    ii <= insts@.len(),
                    insts@ == as_insts(ids),
                    ids == d.inst_ids(bb),
                    ids.no_duplicates(),
                    Block(bb.0) == bb,
                    bs == d.block_ids(),
                    bs.no_duplicates(),
                    bs.contains(bb.0),
                    bb.0 == bs[bi as int],
                    bi < bs.len(),
                    prev == bs.subrange(0, bi as int),
                    d == w0.unit@,
                    unit@ == d,
                    vn == w0.value_names(),
                    bn == w0.block_names(),
                    cs == const_texts(d),
                    unit_writable(d),
                    unit_named(d, vn, bn),
                    self.wf(),
                    self.keeps_names(w0),
                    t_before == t_head + blocks_text(d, vn, bn, cs, prev),
                    t_blk == t_before + (if d.spec_kind() != UnitKind::Entity {
                        bn[bb.0] + ":\n"@
                    } else {
                        Seq::empty()
                    }),
                    self.text@ == t_blk + insts_text(d, vn, bn, cs, ids.subrange(0, ii as int)),
                decreases insts@.len() - ii,
            {
                let inst = insts[ii];
                assert(inst.0 == ids[ii as int]);
                assert(ids.contains(inst.0));
                proof {
                    d.lemma_placed_exists(bb.0, inst.0);
                    assert(Inst(inst.0) == inst);
                }
                let data = unit.inst_data(inst);
                let ghost t1 = self.text@;
                if !(unit.is_entity() && data.opcode().is_terminator()) {
                    assert(inst_printed(d, inst.0));
                    assert(d.block_ids().contains(bb.0) && d.inst_ids(Block(bb.0)).contains(inst.0));
                    assert(inst_writable(d, Inst(inst.0)));
                    assert(insts_named(d, vn, bn, d.inst_ids(Block(bs[bi as int]))));
                    assert(refs_named(d, Inst(ids[ii as int]), vn, bn));
                    self.put("    ");
                    let c = self.put_inst(inst);
                    self.put("\n");
                    proof {
                        reveal_strlit("    ");
                        reveal_strlit("\n");
                        let x = inst.0;
                        let done = ids.subrange(0, ii as int);
                        assert(!done.contains(x)) by {
                            if done.contains(x) {
                                let j = choose|j: int| 0 <= j < done.len() && done[j] == x;
                                assert(ids[j] == ids[ii as int]);
                            }
                        }
                        assert forall|j: int| 0 <= j < prev.len() implies !d.inst_ids(Block(#[trigger] prev[j])).contains(
                            x,
                        ) by {
                            if d.inst_ids(Block(prev[j])).contains(x) {
                                assert(bs.contains(prev[j])) by {
                                    assert(bs[j] == prev[j]);
                                }
                                d.lemma_home(Block(prev[j]), x);
                                d.lemma_home(bb, x);
                                assert(bs[j] == bs[bi as int]);
                            }
                        }
                        let s1 = ids.subrange(0, ii + 1);
                        assert(s1.drop_last() =~= done);
                        assert(s1.last() == x);
                        assert(Inst(x) == inst);
                        assert(cs.dom().contains(x));
                        assert(cs[x] == c@);
                        assert(self.text@ =~= t_blk + insts_text(d, vn, bn, cs, s1));
                    }
                } else {
                    proof {
                        let s1 = ids.subrange(0, ii + 1);
                        assert(s1.drop_last() =~= ids.subrange(0, ii as int));
                        assert(!inst_printed(d, s1.last()));
                    }
                }
                ii = ii + 1;
            }
            proof {
                assert(ids.subrange(0, ii as int) =~= ids);
                let s1 = bs.subrange(0, bi + 1);
                assert(s1.drop_last() =~= prev);
                assert(s1.last() == bb.0);
                assert(self.text@ =~= t_head + blocks_text(d, vn, bn, cs, s1));
            }
            bi = bi + 1;
        }
        self.put("}\n");
        proof {
            reveal_strlit("}\n");
            assert(bs.subrange(0, bi as int) =~= bs);
            assert(self.text@ =~= w0.text@ + unit_text(d, vn, bn, cs));
        }
    }
}

} // verus!

verus! {

/// Whether the `k`th value argument appears in the instruction's text.
fn arg_used_at(data: &InstData, k: usize) -> (b: bool)
    requires
        k < data.spec_args().len(),
    ensures
        b == arg_used(*data, k as int),
{
    let args = data.args();
    let op = data.opcode();
    match op {
        Opcode::ConstInt | Opcode::ConstTime | Opcode::Halt | Opcode::Ret | Opcode::Br => false,
        Opcode::ArrayUniform | Opcode::BrCond => k < 1,
        Opcode::DrvCond => k < 4,
        Opcode::Reg => {
            let n = data.mode_args().len();
            (k as u128) < 1 + 2 * (n as u128) || args[k].0 != u32::MAX
        },
        Opcode::Call => match data {
            InstData::Call { ins, .. } => k < *ins as usize,
            _ => true,
        },
        Opcode::Phi => {
            let bbs = data.blocks();
            k < args.len() && k < bbs.len()
        },
        _ => true,
    }
}

/// Whether the `k`th block appears in the instruction's text.
fn block_used_at(data: &InstData, k: usize) -> (b: bool)
    ensures
        b == block_used(*data, k as int),
{
    match data.opcode() {
        Opcode::Br | Opcode::Wait | Opcode::WaitTime => k < 1,
        Opcode::BrCond => k < 2,
        Opcode::Phi => {
            let args = data.args();
            let bbs = data.blocks();
            k < args.len() && k < bbs.len()
        },
        _ => false,
    }
}

/// Whether an instruction has what its text refers to, so that
/// `UnitWriter::write_inst` can write it.
pub fn inst_is_writable(unit: Unit, inst: Inst) -> (b: bool)
    requires
        unit@.wf(),
    ensures
        b == inst_writable(unit@, inst),
{
    let ghost d = unit@;
    if !unit.has_inst(inst) {
        return false;
    }
    let data = unit.inst_data(inst);
    let args = data.args();
    let bbs = data.blocks();
    let imms = data.imms();
    let mut k: usize = 0;
    while k < args.len()
        invariant
            k <= args@.len(),
            args@ == data.spec_args(),
            *data == d.spec_inst(inst)->0,
            d == unit@,
            forall|j: int| 0 <= j < k && arg_used(*data, j) ==> value_usable(d, #[trigger] args@[j]),
        decreases args@.len() - k,
    {
        if arg_used_at(data, k) && !unit.is_usable_value(args[k]) {
            return false;
        }
        k = k + 1;
    }
    let mut k: usize = 0;
    while k < bbs.len()
        invariant
            k <= bbs@.len(),
            bbs@ == data.spec_blocks(),
            *data == d.spec_inst(inst)->0,
            d == unit@,
            forall|j: int| 0 <= j < k && block_used(*data, j) ==> d.spec_block(#[trigger] bbs@[j]) is Some,
        decreases bbs@.len() - k,
    {
        if block_used_at(data, k) && !unit.has_block(bbs[k]) {
            return false;
        }
        k = k + 1;
    }
    match data.opcode() {
        Opcode::ConstInt => match data {
            InstData::ConstInt { .. } => unit.has_result(inst),
            _ => false,
        },
        Opcode::ConstTime => match data {
            InstData::ConstTime { imm, .. } => imm.time().denom != 0,
            _ => false,
        },
        Opcode::ArrayUniform => args.len() >= 1 && imms.len() >= 1,
        Opcode::DrvCond => args.len() >= 4,
        Opcode::Reg => match data {
            InstData::Reg { args: ra, modes, .. } => (ra.len() as u128) == 3 * (modes.len() as u128) + 1,
            _ => false,
        },
        Opcode::Call | Opcode::Inst => match data {
            InstData::Call { unit: ext, ins, args: ca, .. } => (*ins as usize) <= ca.len() && (ext.0 as usize)
                < unit.extern_count(),
            _ => false,
        },
        Opcode::Phi => unit.has_result(inst),
        Opcode::Br | Opcode::Wait => bbs.len() >= 1,
        Opcode::BrCond => args.len() >= 1 && bbs.len() >= 2,
        Opcode::WaitTime => bbs.len() >= 1 && args.len() >= 1,
        _ => true,
    }
}

} // verus!

verus! {

/// Whether a unit can be written by `Writer::write_unit`: a function has a
/// return type, every instruction that appears in its text is writable,
/// and the counters of the names fit in a `usize`.
pub fn unit_is_writable(unit: Unit) -> (b: bool)
    requires
        unit@.wf(),
    ensures
        b == unit_writable(unit@),
{
    let ghost d = unit@;
    let nv = unit.value_id_bound();
    let nb = unit.block_id_bound();
    if 2 * ((nv as u128) + (nb as u128)) + 1 > usize::MAX as u128 {
        return false;
    }
    if unit.is_function() && !unit.sig().has_return_type() {
        return false;
    }
    let blocks = unit.blocks();
    let ghost bs = d.block_ids();
    let mut bi: usize = 0;
    while bi < blocks.len()
        invariant
            d == unit@,
            d.wf(),
            blocks@ == as_blocks(bs),
            bs == d.block_ids(),
            bi <= blocks@.len(),
            forall|b: u32, i: u32|
                bs.subrange(0, bi as int).contains(b) && #[trigger] d.inst_ids(Block(b)).contains(i) && inst_printed(d, i)
                    ==> inst_writable(d, Inst(i)),
        decreases blocks@.len() - bi,
    {
        let bb = blocks[bi];
        assert(bb.0 == bs[bi as int]);
        assert(bs.contains(bb.0));
        let insts = unit.insts(bb);
        let ghost ids = d.inst_ids(bb);
        let mut ii: usize = 0;
        while ii < insts.len()
            invariant
                d == unit@,
                d.wf(),
                blocks@ == as_blocks(bs),
                bs == d.block_ids(),
                bi < blocks@.len(),
                bb.0 == bs[bi as int],
                bs.contains(bb.0),
                insts@ == as_insts(ids),
                ids == d.inst_ids(bb),
                ii <= insts@.len(),
                forall|b: u32, i: u32|
                    bs.subrange(0, bi as int).contains(b) && #[trigger] d.inst_ids(Block(b)).contains(i) && inst_printed(
                        d,
                        i,
                    ) ==> inst_writable(d, Inst(i)),
                forall|j: int| 0 <= j < ii && inst_printed(d, #[trigger] ids[j]) ==> inst_writable(d, Inst(ids[j])),
            decreases insts@.len() - ii,
        {
            let inst = insts[ii];
            assert(inst.0 == ids[ii as int]);
            proof {
                d.lemma_placed_exists(bb.0, inst.0);
                assert(Inst(inst.0) == inst);
                assert(Block(bb.0) == bb);
            }
            let data = unit.inst_data(inst);
            if !(unit.is_entity() && data.opcode().is_terminator()) {
                if !inst_is_writable(unit, inst) {
                    proof {
                        assert(ids.contains(inst.0));
                        assert(d.inst_ids(Block(bb.0)).contains(inst.0));
                        assert(inst_printed(d, inst.0));
                    }
                    return false;
                }
            }
            ii = ii + 1;
        }
        proof {
            assert forall|b: u32, i: u32|
                bs.subrange(0, bi + 1).contains(b) && #[trigger] d.inst_ids(Block(b)).contains(i) && inst_printed(d, i)
                    implies inst_writable(d, Inst(i)) by {
                let s1 = bs.subrange(0, bi + 1);
                let w = choose|w: int| 0 <= w < s1.len() && #[trigger] s1[w] == b;
                if w < bi {
                    assert(bs.subrange(0, bi as int)[w] == b);
                } else {
                    assert(b == bb.0);
                    assert(Block(b) == bb);
                    let j = choose|j: int| 0 <= j < ids.len() && ids[j] == i;
                    assert(inst_printed(d, ids[j]));
                }
            }
        }
        bi = bi + 1;
    }
    proof {
        assert(bs.subrange(0, bi as int) =~= bs);
    }
    true
}

/// Whether a module can be written by `Writer::write_module`: each of its
/// units can be written.
pub fn module_is_writable(module: &Module) -> (b: bool)
    requires
        module.wf(),
    ensures
        b == module_writable(*module),
{
    let ghost m = *module;
    proof {
        m.lemma_ids();
    }
    let units = module.units();
    let ghost us = m.unit_ids();
    let mut k: usize = 0;
    while k < units.len()
        invariant
            m == *module,
            m.wf(),
            us == m.unit_ids(),
            units@ == us.map_values(|u: u32| ModUnit(u)),
            forall|x: u32| #[trigger] us.contains(x) <==> m.spec_unit(ModUnit(x)) is Some,
            k <= units@.len(),
            forall|j: int| 0 <= j < k ==> unit_writable(m.spec_unit(ModUnit(#[trigger] us[j]))->0),
        decreases units@.len() - k,
    {
        let u = units[k];
        assert(u.0 == us[k as int]);
        assert(us.contains(u.0));
        proof {
            m.lemma_entries_ok(u, DeclId(0));
        }
        let data = module.unit(u);
        let unit = Unit::new_anonymous(data);
        if !unit_is_writable(unit) {
            return false;
        }
        k = k + 1;
    }
    proof {
        assert forall|u: u32| #[trigger] us.contains(u) implies unit_writable(m.spec_unit(ModUnit(u))->0) by {
            let j = choose|j: int| 0 <= j < us.len() && us[j] == u;
        }
    }
    true
}

} // verus!
