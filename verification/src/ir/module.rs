//! Modules: collections of units and declarations, linked together.
//!
//! A module is the root of an LLHD intermediate representation. It holds
//! function, process, and entity definitions, and declarations of units
//! defined elsewhere. Linking resolves the external units that each unit
//! refers to against the module's symbols.

use crate::ir::keys::ExtUnit;
use crate::ir::sig::{Signature, SignatureView};
use crate::ir::unit::{UnitData, UnitKind, UnitName};
use vstd::prelude::*;

verus! {

/// A unit definition or declaration in a module.
#[derive(Clone, Copy, PartialEq, Eq, Structural, Hash, Debug, PartialOrd, Ord)]
pub struct ModUnit(pub u32);

/// A unit declaration in a module.
#[derive(Clone, Copy, PartialEq, Eq, Structural, Hash, Debug, PartialOrd, Ord)]
pub struct DeclId(pub u32);

/// A unit declaration.
pub struct DeclData {
    /// The unit signature.
    pub sig: Signature,
    /// The unit name.
    pub name: UnitName,
    /// The location in the source file.
    pub loc: Option<usize>,
}

/// A linked unit.
#[derive(Clone, Copy, PartialEq, Eq, Structural, Hash, Debug)]
pub enum LinkedUnit {
    /// A unit definition.
    Def(ModUnit),
    /// A unit declaration.
    Decl(DeclId),
}

impl LinkedUnit {
    /// Check whether the linked unit is a definition.
    pub fn is_def(&self) -> (b: bool)
        ensures
            b == (*self is Def),
    {
        match self {
            LinkedUnit::Def(..) => true,
            _ => false,
        }
    }

    /// Check whether the linked unit is a declaration.
    pub fn is_decl(&self) -> (b: bool)
        ensures
            b == (*self is Decl),
    {
        match self {
            LinkedUnit::Decl(..) => true,
            _ => false,
        }
    }
}

/// Two unit names are the same name.
pub open spec fn same_name(a: UnitName, b: UnitName) -> bool {
    match (a, b) {
        (UnitName::Anonymous(x), UnitName::Anonymous(y)) => x == y,
        (UnitName::Local(x), UnitName::Local(y)) => x@ == y@,
        (UnitName::Global(x), UnitName::Global(y)) => x@ == y@,
        _ => false,
    }
}

/// Check whether two unit names are the same name.
pub fn names_equal(a: &UnitName, b: &UnitName) -> (r: bool)
    ensures
        r == same_name(*a, *b),
{
    match (a, b) {
        (UnitName::Anonymous(x), UnitName::Anonymous(y)) => *x == *y,
        (UnitName::Local(x), UnitName::Local(y)) => *x == *y,
        (UnitName::Global(x), UnitName::Global(y)) => *x == *y,
        _ => false,
    }
}

/// A symbol of a module: a name, what it refers to, and a signature.
pub struct Symbol {
    /// The name of the symbol.
    pub name: UnitName,
    /// The definition or declaration the symbol refers to.
    pub unit: LinkedUnit,
    /// The signature of the symbol.
    pub sig: Signature,
}

/// A module.
///
/// Units and declarations are kept in tables indexed by their ids; ids are
/// handed out in increasing order and never reused.
pub struct Module {
    units: Vec<Option<UnitData>>,
    decls: Vec<Option<DeclData>>,
    link_table: Option<Vec<(ModUnit, ExtUnit, LinkedUnit)>>,
    location_hints: Vec<(ModUnit, usize)>,
}

/// The present entries among the first `n` slots of a table, as ids.
pub open spec fn present_upto<T>(s: Seq<Option<T>>, n: int) -> Seq<u32>
    decreases n,
{
    if n <= 0 {
        Seq::empty()
    } else {
        present_upto(s, n - 1) + if 0 <= n - 1 < s.len() && s[n - 1] is Some {
            seq![(n - 1) as u32]
        } else {
            Seq::empty()
        }
    }
}

impl Module {
    /// The number of unit ids handed out so far.
    pub closed spec fn unit_bound(&self) -> nat {
        self.units@.len()
    }

    /// The number of declaration ids handed out so far.
    pub closed spec fn decl_bound(&self) -> nat {
        self.decls@.len()
    }

    /// The unit with id `u`, if it exists.
    pub closed spec fn spec_unit(&self, u: ModUnit) -> Option<UnitData> {
        if (u.0 as int) < self.units@.len() {
            self.units@[u.0 as int]
        } else {
            None
        }
    }

    /// The declaration with id `d`, if it exists.
    pub closed spec fn spec_decl(&self, d: DeclId) -> Option<DeclData> {
        if (d.0 as int) < self.decls@.len() {
            self.decls@[d.0 as int]
        } else {
            None
        }
    }

    /// The ids of the units, in increasing order.
    pub closed spec fn unit_ids(&self) -> Seq<u32> {
        present_upto(self.units@, self.units@.len() as int)
    }

    /// The ids of the declarations, in increasing order.
    pub closed spec fn decl_ids(&self) -> Seq<u32> {
        present_upto(self.decls@, self.decls@.len() as int)
    }

    /// The link table, if the module is linked.
    pub closed spec fn spec_links(&self) -> Option<Seq<(ModUnit, ExtUnit, LinkedUnit)>> {
        match self.link_table {
            Some(t) => Some(t@),
            None => None,
        }
    }

    /// The location hint of a unit.
    pub closed spec fn spec_hint(&self, u: ModUnit) -> Option<usize> {
        hint_in(self.location_hints@, u)
    }

    /// The tables have room for their ids, every unit is well-formed, and
    /// every signature describes its arguments consistently.
    pub closed spec fn wf(&self) -> bool {
        &&& self.units@.len() < u32::MAX
        &&& self.decls@.len() < u32::MAX
        &&& forall|k: int| 0 <= k < self.units@.len() && #[trigger] self.units@[k] is Some ==> unit_ok(self.units@[k]->0)
        &&& forall|k: int| 0 <= k < self.decls@.len() && #[trigger] self.decls@[k] is Some ==> (self.decls@[k]->0).sig@.wf()
    }
}

/// A unit can take part in linking: it is well-formed, and the signatures
/// of the external units it refers to are consistent.
pub open spec fn unit_ok(d: UnitData) -> bool {
    &&& d.wf()
    &&& forall|e: int| 0 <= e < d.spec_exts().len() ==> (#[trigger] d.spec_exts()[e]).sig@.wf()
}


/// The hint most recently recorded for `u` in a list of hints.
pub open spec fn hint_in(s: Seq<(ModUnit, usize)>, u: ModUnit) -> Option<usize>
    decreases s.len(),
{
    if s.len() == 0 {
        None
    } else if s.last().0 == u {
        Some(s.last().1)
    } else {
        hint_in(s.drop_last(), u)
    }
}

/// The link recorded for the external unit `e` of `u` in a link table.
pub open spec fn link_in(t: Seq<(ModUnit, ExtUnit, LinkedUnit)>, u: ModUnit, e: ExtUnit) -> Option<LinkedUnit>
    decreases t.len(),
{
    if t.len() == 0 {
        None
    } else if t.last().0 == u && t.last().1 == e {
        Some(t.last().2)
    } else {
        link_in(t.drop_last(), u, e)
    }
}

/// A symbol as the specification sees it.
pub type SymbolView = (UnitName, LinkedUnit, SignatureView);

/// The symbols of a module: its units in id order, then its declarations in
/// id order.
pub open spec fn symbol_seq(m: Module) -> Seq<SymbolView> {
    m.unit_ids().map_values(
        |u: u32| (m.spec_unit(ModUnit(u))->0.spec_name(), LinkedUnit::Def(ModUnit(u)), m.spec_unit(ModUnit(u))->0.spec_sig()@),
    ) + m.decl_ids().map_values(
        |d: u32| (m.spec_decl(DeclId(d))->0.name, LinkedUnit::Decl(DeclId(d)), m.spec_decl(DeclId(d))->0.sig@),
    )
}

/// The last of the first `n` symbols that has the name `name`.
pub open spec fn last_named(syms: Seq<SymbolView>, name: UnitName, n: int) -> Option<int>
    decreases n,
{
    if n <= 0 {
        None
    } else if same_name(syms[n - 1].0, name) {
        Some(n - 1)
    } else {
        last_named(syms, name, n - 1)
    }
}

/// A name is used by a definition and by some other symbol.
pub open spec fn has_duplicate_def(syms: Seq<SymbolView>) -> bool {
    exists|i: int, j: int| 0 <= i < j < syms.len() && #[trigger] same_name(syms[i].0, syms[j].0) && syms[i].1 is Def
}

/// What an external unit resolves to: the last symbol of that name, if its
/// signature has the same arguments.
pub open spec fn resolve(m: Module, name: UnitName) -> Option<SymbolView> {
    let syms = symbol_seq(m);
    match last_named(syms, name, syms.len() as int) {
        Some(k) => Some(syms[k]),
        None => None,
    }
}

/// The external unit `e` of unit `u` resolves to a symbol with matching
/// arguments.
pub open spec fn ext_resolves(m: Module, u: u32, e: int) -> bool {
    let ext = m.spec_unit(ModUnit(u))->0.spec_exts()[e];
    &&& resolve(m, ext.name) is Some
    &&& (resolve(m, ext.name)->0).2.arg_datas() == ext.sig@.arg_datas()
}

/// Linking the module succeeds: no name is both defined and used by another
/// symbol, and every external unit of every unit resolves.
pub open spec fn linkable(m: Module) -> bool {
    &&& !has_duplicate_def(symbol_seq(m))
    &&& forall|u: u32, e: int|
        #![trigger m.spec_unit(ModUnit(u))->0.spec_exts()[e]]
        m.spec_unit(ModUnit(u)) is Some && 0 <= e < m.spec_unit(ModUnit(u))->0.spec_exts().len() ==> ext_resolves(m, u, e)
}

/// The link that linking records for the external unit `e` of `u`.
pub open spec fn expected_link(m: Module, u: ModUnit, e: ExtUnit) -> Option<LinkedUnit> {
    if m.spec_unit(u) is Some && (e.0 as int) < m.spec_unit(u)->0.spec_exts().len() {
        Some((resolve(m, m.spec_unit(u)->0.spec_exts()[e.0 as int].name)->0).1)
    } else {
        None
    }
}

/// The ids listed are those of present entries, in increasing order.
pub proof fn lemma_present_upto<T>(s: Seq<Option<T>>, n: int)
    requires
        0 <= n <= s.len(),
        n < u32::MAX,
    ensures
        forall|x: u32| #[trigger] present_upto(s, n).contains(x) <==> ((x as int) < n && s[x as int] is Some),
        forall|a: int, b: int| 0 <= a < b < present_upto(s, n).len() ==> present_upto(s, n)[a] < present_upto(s, n)[b],
        forall|a: int| 0 <= a < present_upto(s, n).len() ==> (present_upto(s, n)[a] as int) < n,
    decreases n,
{
    if n > 0 {
        lemma_present_upto(s, n - 1);
        let p = present_upto(s, n - 1);
        let q = present_upto(s, n);
        let last = (n - 1) as u32;
        assert(last as int == n - 1);
        if s[n - 1] is Some {
            assert(q == p.push(last));
        } else {
            assert(q == p);
        }
        assert forall|x: u32| #[trigger] q.contains(x) <==> ((x as int) < n && s[x as int] is Some) by {
            if q.contains(x) {
                let j = choose|j: int| 0 <= j < q.len() && q[j] == x;
                if j < p.len() {
                    assert(p[j] == x);
                    assert(p.contains(x));
                }
            }
            if (x as int) < n - 1 && s[x as int] is Some {
                assert(p.contains(x));
                let j = choose|j: int| 0 <= j < p.len() && p[j] == x;
                assert(q[j] == x);
            }
            if (x as int) == n - 1 && s[x as int] is Some {
                assert(q[q.len() - 1] == x);
            }
        }
    }
}

/// Appending an entry leaves the ids among the earlier slots as they were.
pub proof fn lemma_present_push<T>(s: Seq<Option<T>>, x: Option<T>, n: int)
    requires
        0 <= n <= s.len(),
    ensures
        present_upto(s.push(x), n) == present_upto(s, n),
    decreases n,
{
    if n > 0 {
        lemma_present_push(s, x, n - 1);
    }
}

/// Changing one slot to empty or full changes only whether its id is listed.
pub proof fn lemma_present_update<T>(s: Seq<Option<T>>, k: int, x: Option<T>, n: int)
    requires
        0 <= k < s.len(),
        0 <= n <= s.len(),
        (s[k] is Some) == (x is Some),
    ensures
        present_upto(s.update(k, x), n) == present_upto(s, n),
    decreases n,
{
    if n > 0 {
        lemma_present_update(s, k, x, n - 1);
    }
}

impl Module {
    /// The ids listed for units and declarations are exactly those of the
    /// present ones, in increasing order.
    pub proof fn lemma_ids(&self)
        requires
            self.wf(),
        ensures
            forall|x: u32| #[trigger] self.unit_ids().contains(x) <==> self.spec_unit(ModUnit(x)) is Some,
            forall|x: u32| #[trigger] self.decl_ids().contains(x) <==> self.spec_decl(DeclId(x)) is Some,
            forall|a: int, b: int| 0 <= a < b < self.unit_ids().len() ==> self.unit_ids()[a] < self.unit_ids()[b],
            forall|a: int, b: int| 0 <= a < b < self.decl_ids().len() ==> self.decl_ids()[a] < self.decl_ids()[b],
    {
        if self.wf() {
            lemma_present_upto(self.units@, self.units@.len() as int);
            lemma_present_upto(self.decls@, self.decls@.len() as int);
        }
    }

    /// The units of a well-formed module can take part in linking, and its
    /// declarations have well-formed signatures.
    pub proof fn lemma_entries_ok(&self, u: ModUnit, d: DeclId)
        requires
            self.wf(),
        ensures
            self.spec_unit(u) is Some ==> unit_ok(self.spec_unit(u)->0),
            self.spec_decl(d) is Some ==> (self.spec_decl(d)->0).sig@.wf(),
    {
        if self.spec_unit(u) is Some {
            assert(self.units@[u.0 as int] is Some);
        }
        if self.spec_decl(d) is Some {
            assert(self.decls@[d.0 as int] is Some);
        }
    }

    /// Create a new empty module.
    pub fn new() -> (m: Module)
        ensures
            m.wf(),
            m.unit_bound() == 0,
            m.decl_bound() == 0,
            m.spec_links() is None,
            forall|u: ModUnit| #[trigger] m.spec_hint(u) is None,
    {
        Module { units: Vec::new(), decls: Vec::new(), link_table: None, location_hints: Vec::new() }
    }

    /// Add a unit to the module. The module is no longer linked.
    pub fn add_unit(&mut self, data: UnitData) -> (u: ModUnit)
        requires
            old(self).wf(),
            unit_ok(data),
            old(self).unit_bound() + 1 < u32::MAX,
        ensures
            final(self).wf(),
            u.0 == old(self).unit_bound(),
            final(self).unit_bound() == old(self).unit_bound() + 1,
            final(self).spec_unit(u) == Some(data),
            forall|x: ModUnit| x != u ==> #[trigger] final(self).spec_unit(x) == old(self).spec_unit(x),
            final(self).unit_ids() == old(self).unit_ids().push(u.0),
            final(self).decl_bound() == old(self).decl_bound(),
            forall|d: DeclId| #[trigger] final(self).spec_decl(d) == old(self).spec_decl(d),
            final(self).decl_ids() == old(self).decl_ids(),
            final(self).spec_links() is None,
            forall|x: ModUnit| #[trigger] final(self).spec_hint(x) == old(self).spec_hint(x),
    {
        let u = ModUnit(self.units.len() as u32);
        let ghost s0 = self.units@;
        self.units.push(Some(data));
        self.link_table = None;
        proof {
            lemma_present_push(s0, Some(data), s0.len() as int);
        }
        u
    }

    /// Remove a unit from the module. Nothing happens if there is no unit
    /// with that id.
    pub fn remove_unit(&mut self, unit: ModUnit)
        requires
            old(self).wf(),
        ensures
            final(self).wf(),
            final(self).unit_bound() == old(self).unit_bound(),
            final(self).spec_unit(unit) is None,
            forall|x: ModUnit| x != unit ==> #[trigger] final(self).spec_unit(x) == old(self).spec_unit(x),
            final(self).decl_bound() == old(self).decl_bound(),
            forall|d: DeclId| #[trigger] final(self).spec_decl(d) == old(self).spec_decl(d),
            final(self).decl_ids() == old(self).decl_ids(),
            final(self).spec_links() == old(self).spec_links(),
            forall|x: ModUnit| #[trigger] final(self).spec_hint(x) == old(self).spec_hint(x),
    {
        if (unit.0 as usize) < self.units.len() {
            self.units.set(unit.0 as usize, None);
        }
    }

    /// Declare an external unit. The module is no longer linked.
    pub fn declare(&mut self, name: UnitName, sig: Signature) -> (d: DeclId)
        requires
            old(self).wf(),
            sig@.wf(),
            old(self).decl_bound() + 1 < u32::MAX,
        ensures
            final(self).wf(),
            d.0 == old(self).decl_bound(),
            final(self).spec_decl(d) == Some(DeclData { sig, name, loc: None }),
            forall|x: DeclId| x != d ==> #[trigger] final(self).spec_decl(x) == old(self).spec_decl(x),
            final(self).decl_bound() == old(self).decl_bound() + 1,
            final(self).decl_ids() == old(self).decl_ids().push(d.0),
            final(self).unit_bound() == old(self).unit_bound(),
            forall|u: ModUnit| #[trigger] final(self).spec_unit(u) == old(self).spec_unit(u),
            final(self).unit_ids() == old(self).unit_ids(),
            final(self).spec_links() is None,
            forall|x: ModUnit| #[trigger] final(self).spec_hint(x) == old(self).spec_hint(x),
    {
        self.add_decl(DeclData { sig, name, loc: None })
    }

    /// Add a declaration of an external unit. The module is no longer
    /// linked.
    pub fn add_decl(&mut self, data: DeclData) -> (d: DeclId)
        requires
            old(self).wf(),
            data.sig@.wf(),
            old(self).decl_bound() + 1 < u32::MAX,
        ensures
            final(self).wf(),
            d.0 == old(self).decl_bound(),
            final(self).spec_decl(d) == Some(data),
            forall|x: DeclId| x != d ==> #[trigger] final(self).spec_decl(x) == old(self).spec_decl(x),
            final(self).decl_bound() == old(self).decl_bound() + 1,
            final(self).decl_ids() == old(self).decl_ids().push(d.0),
            final(self).unit_bound() == old(self).unit_bound(),
            forall|u: ModUnit| #[trigger] final(self).spec_unit(u) == old(self).spec_unit(u),
            final(self).unit_ids() == old(self).unit_ids(),
            final(self).spec_links() is None,
            forall|x: ModUnit| #[trigger] final(self).spec_hint(x) == old(self).spec_hint(x),
    {
        let d = DeclId(self.decls.len() as u32);
        let ghost s0 = self.decls@;
        let ghost data0 = data;
        self.decls.push(Some(data));
        self.link_table = None;
        proof {
            lemma_present_push(s0, Some(data0), s0.len() as int);
        }
        d
    }

    /// Remove a declaration from the module. Nothing happens if there is no
    /// declaration with that id.
    pub fn remove_decl(&mut self, decl: DeclId)
        requires
            old(self).wf(),
        ensures
            final(self).wf(),
            final(self).decl_bound() == old(self).decl_bound(),
            final(self).spec_decl(decl) is None,
            forall|x: DeclId| x != decl ==> #[trigger] final(self).spec_decl(x) == old(self).spec_decl(x),
            final(self).unit_bound() == old(self).unit_bound(),
            forall|u: ModUnit| #[trigger] final(self).spec_unit(u) == old(self).spec_unit(u),
            final(self).unit_ids() == old(self).unit_ids(),
            final(self).spec_links() == old(self).spec_links(),
            forall|x: ModUnit| #[trigger] final(self).spec_hint(x) == old(self).spec_hint(x),
    {
        if (decl.0 as usize) < self.decls.len() {
            self.decls.set(decl.0 as usize, None);
        }
    }

    /// The units of the module, in id order.
    pub fn units(&self) -> (v: Vec<ModUnit>)
        requires
            self.wf(),
        ensures
            v@ == self.unit_ids().map_values(|u: u32| ModUnit(u)),
    {
        let mut v: Vec<ModUnit> = Vec::new();
        let n = self.units.len();
        let mut k: usize = 0;
        while k < n
            invariant
                n == self.units@.len(),
                k <= n,
                n < u32::MAX,
                v@ == present_upto(self.units@, k as int).map_values(|u: u32| ModUnit(u)),
            decreases n - k,
        {
            if self.units[k].is_some() {
                v.push(ModUnit(k as u32));
            }
            k = k + 1;
            proof {
                assert(v@ =~= present_upto(self.units@, k as int).map_values(|u: u32| ModUnit(u)));
            }
        }
        v
    }

    /// The declarations of the module, in id order.
    pub fn decls(&self) -> (v: Vec<DeclId>)
        requires
            self.wf(),
        ensures
            v@ == self.decl_ids().map_values(|d: u32| DeclId(d)),
    {
        let mut v: Vec<DeclId> = Vec::new();
        let n = self.decls.len();
        let mut k: usize = 0;
        while k < n
            invariant
                n == self.decls@.len(),
                n < u32::MAX,
                k <= n,
                v@ == present_upto(self.decls@, k as int).map_values(|d: u32| DeclId(d)),
            decreases n - k,
        {
            if self.decls[k].is_some() {
                v.push(DeclId(k as u32));
            }
            k = k + 1;
            proof {
                assert(v@ =~= present_upto(self.decls@, k as int).map_values(|d: u32| DeclId(d)));
            }
        }
        v
    }

    /// The data of a unit.
    pub fn unit(&self, unit: ModUnit) -> (d: &UnitData)
        requires
            self.spec_unit(unit) is Some,
        ensures
            *d == self.spec_unit(unit)->0,
    {
        self.units[unit.0 as usize].as_ref().unwrap()
    }

    /// The data of a declaration.
    pub fn decl(&self, decl: DeclId) -> (d: &DeclData)
        requires
            self.spec_decl(decl) is Some,
        ensures
            *d == self.spec_decl(decl)->0,
    {
        self.decls[decl.0 as usize].as_ref().unwrap()
    }

    /// The name of a unit.
    pub fn unit_name(&self, unit: ModUnit) -> (n: &UnitName)
        requires
            self.spec_unit(unit) is Some,
        ensures
            *n == self.spec_unit(unit)->0.spec_name(),
    {
        self.unit(unit).name_ref()
    }

    /// The signature of a unit.
    pub fn unit_sig(&self, unit: ModUnit) -> (s: &Signature)
        requires
            self.spec_unit(unit) is Some,
        ensures
            *s == self.spec_unit(unit)->0.spec_sig(),
    {
        self.unit(unit).sig_ref()
    }

    /// Check whether the module is linked. Adding a unit or a declaration
    /// undoes the linking.
    pub fn is_linked(&self) -> (b: bool)
        ensures
            b == (self.spec_links() is Some),
    {
        self.link_table.is_some()
    }

    /// Record the byte offset of a unit in the input file.
    pub fn set_location_hint(&mut self, mod_unit: ModUnit, loc: usize)
        ensures
            final(self).spec_hint(mod_unit) == Some(loc),
            forall|x: ModUnit| x != mod_unit ==> #[trigger] final(self).spec_hint(x) == old(self).spec_hint(x),
            final(self).unit_bound() == old(self).unit_bound(),
            forall|u: ModUnit| #[trigger] final(self).spec_unit(u) == old(self).spec_unit(u),
            final(self).unit_ids() == old(self).unit_ids(),
            final(self).decl_bound() == old(self).decl_bound(),
            forall|d: DeclId| #[trigger] final(self).spec_decl(d) == old(self).spec_decl(d),
            final(self).decl_ids() == old(self).decl_ids(),
            final(self).spec_links() == old(self).spec_links(),
            old(self).wf() ==> final(self).wf(),
    {
        self.location_hints.push((mod_unit, loc));
        proof {
            assert(self.location_hints@.drop_last() == old(self).location_hints@);
        }
    }

    /// The byte offset of a unit in the input file, if one was recorded.
    pub fn location_hint(&self, mod_unit: ModUnit) -> (r: Option<usize>)
        ensures
            r == self.spec_hint(mod_unit),
    {
        let mut k = self.location_hints.len();
        proof {
            assert(self.location_hints@.subrange(0, k as int) == self.location_hints@);
        }
        while k > 0
            invariant
                k <= self.location_hints@.len(),
                hint_in(self.location_hints@, mod_unit) == hint_in(self.location_hints@.subrange(0, k as int), mod_unit),
            decreases k,
        {
            let (u, loc) = self.location_hints[k - 1];
            proof {
                assert(self.location_hints@.subrange(0, k as int).drop_last() == self.location_hints@.subrange(0, k - 1));
            }
            if u == mod_unit {
                return Some(loc);
            }
            k = k - 1;
        }
        None
    }
}


/// A symbol as the specification sees it.
pub open spec fn sym_view(s: Symbol) -> SymbolView {
    (s.name, s.unit, s.sig@)
}

/// The symbols among the first `n` whose names are local (or anonymous),
/// or global when `global` is set, in order.
pub open spec fn symbols_scoped(s: Seq<SymbolView>, global: bool, n: int) -> Seq<SymbolView>
    decreases n,
{
    if n <= 0 {
        Seq::empty()
    } else {
        symbols_scoped(s, global, n - 1) + if (s[n - 1].0 is Global) == global {
            seq![s[n - 1]]
        } else {
            Seq::empty()
        }
    }
}

impl Symbol {
    /// A copy of this symbol.
    pub fn duplicate(&self) -> (s: Symbol)
        ensures
            sym_view(s) == sym_view(*self),
    {
        Symbol { name: self.name.duplicate(), unit: self.unit, sig: self.sig.duplicate() }
    }
}

/// The index of the last symbol named `name`.
fn find_last(syms: &Vec<Symbol>, name: &UnitName, Ghost(view): Ghost<Seq<SymbolView>>) -> (r: Option<usize>)
    requires
        view.len() == syms@.len(),
        forall|k: int| 0 <= k < syms@.len() ==> #[trigger] sym_view(syms@[k]) == view[k],
    ensures
        match r {
            Some(k) => last_named(view, *name, view.len() as int) == Some(k as int) && k < syms@.len(),
            None => last_named(view, *name, view.len() as int) is None,
        },
{
    let mut k = syms.len();
    while k > 0
        invariant
            k <= syms@.len(),
            view.len() == syms@.len(),
            forall|j: int| 0 <= j < syms@.len() ==> #[trigger] sym_view(syms@[j]) == view[j],
            last_named(view, *name, view.len() as int) == last_named(view, *name, k as int),
        decreases k,
    {
        proof {
            assert(sym_view(syms@[k - 1]) == view[k - 1]);
        }
        if names_equal(&syms[k - 1].name, name) {
            return Some(k - 1);
        }
        k = k - 1;
    }
    None
}

impl Module {
    /// The symbols of the module: its units in id order, then its
    /// declarations in id order.
    pub fn symbols(&self) -> (v: Vec<Symbol>)
        requires
            self.wf(),
        ensures
            v@.len() == symbol_seq(*self).len(),
            forall|k: int| 0 <= k < v@.len() ==> #[trigger] sym_view(v@[k]) == symbol_seq(*self)[k],
    {
        let us = self.units();
        let ds = self.decls();
        let ghost uview = self.unit_ids().map_values(
            |u: u32| (self.spec_unit(ModUnit(u))->0.spec_name(), LinkedUnit::Def(ModUnit(u)), self.spec_unit(ModUnit(u))->0.spec_sig()@),
        );
        let ghost dview = self.decl_ids().map_values(
            |d: u32| (self.spec_decl(DeclId(d))->0.name, LinkedUnit::Decl(DeclId(d)), self.spec_decl(DeclId(d))->0.sig@),
        );
        proof {
            self.lemma_ids();
        }
        let mut v: Vec<Symbol> = Vec::new();
        let mut k: usize = 0;
        while k < us.len()
            invariant
                self.wf(),
                us@ == self.unit_ids().map_values(|u: u32| ModUnit(u)),
                uview.len() == us@.len(),
                forall|x: u32| #[trigger] self.unit_ids().contains(x) <==> self.spec_unit(ModUnit(x)) is Some,
                uview == self.unit_ids().map_values(
                    |u: u32| (self.spec_unit(ModUnit(u))->0.spec_name(), LinkedUnit::Def(ModUnit(u)), self.spec_unit(ModUnit(u))->0.spec_sig()@),
                ),
                k <= us@.len(),
                v@.len() == k,
                forall|j: int| 0 <= j < k ==> #[trigger] sym_view(v@[j]) == uview[j],
            decreases us@.len() - k,
        {
            let u = us[k];
            proof {
                assert(self.unit_ids().contains(self.unit_ids()[k as int]));
            }
            let data = self.unit(u);
            v.push(Symbol { name: data.name_ref().duplicate(), unit: LinkedUnit::Def(u), sig: data.sig_ref().duplicate() });
            k = k + 1;
        }
        let mut k: usize = 0;
        while k < ds.len()
            invariant
                self.wf(),
                ds@ == self.decl_ids().map_values(|d: u32| DeclId(d)),
                uview.len() == us@.len(),
                dview.len() == ds@.len(),
                forall|x: u32| #[trigger] self.decl_ids().contains(x) <==> self.spec_decl(DeclId(x)) is Some,
                dview == self.decl_ids().map_values(
                    |d: u32| (self.spec_decl(DeclId(d))->0.name, LinkedUnit::Decl(DeclId(d)), self.spec_decl(DeclId(d))->0.sig@),
                ),
                k <= ds@.len(),
                v@.len() == us@.len() + k,
                forall|j: int| 0 <= j < us@.len() ==> #[trigger] sym_view(v@[j]) == uview[j],
                forall|j: int| 0 <= j < k ==> #[trigger] sym_view(v@[us@.len() + j]) == dview[j],
            decreases ds@.len() - k,
        {
            let d = ds[k];
            proof {
                assert(self.decl_ids().contains(self.decl_ids()[k as int]));
            }
            let data = self.decl(d);
            v.push(Symbol { name: data.name.duplicate(), unit: LinkedUnit::Decl(d), sig: data.sig.duplicate() });
            k = k + 1;
        }
        proof {
            assert forall|j: int| 0 <= j < v@.len() implies #[trigger] sym_view(v@[j]) == symbol_seq(*self)[j] by {
                if j < us@.len() {
                    assert(sym_view(v@[j]) == uview[j]);
                } else {
                    assert(sym_view(v@[us@.len() + (j - us@.len())]) == dview[j - us@.len()]);
                }
            }
        }
        v
    }

    /// The symbols of the module with local or anonymous names, in order.
    pub fn local_symbols(&self) -> (v: Vec<Symbol>)
        requires
            self.wf(),
        ensures
            v@.map_values(|s: Symbol| sym_view(s)) == symbols_scoped(
                symbol_seq(*self),
                false,
                symbol_seq(*self).len() as int,
            ),
    {
        scoped_symbols(self.symbols(), false, Ghost(symbol_seq(*self)))
    }

    /// The symbols of the module with global names, in order.
    pub fn global_symbols(&self) -> (v: Vec<Symbol>)
        requires
            self.wf(),
        ensures
            v@.map_values(|s: Symbol| sym_view(s)) == symbols_scoped(
                symbol_seq(*self),
                true,
                symbol_seq(*self).len() as int,
            ),
    {
        scoped_symbols(self.symbols(), true, Ghost(symbol_seq(*self)))
    }
}

/// Keep the symbols whose names are global, or those whose names are not.
fn scoped_symbols(all: Vec<Symbol>, global: bool, Ghost(view): Ghost<Seq<SymbolView>>) -> (v: Vec<Symbol>)
    requires
        all@.len() == view.len(),
        forall|k: int| 0 <= k < all@.len() ==> #[trigger] sym_view(all@[k]) == view[k],
    ensures
        v@.map_values(|s: Symbol| sym_view(s)) == symbols_scoped(view, global, view.len() as int),
{
    let mut v: Vec<Symbol> = Vec::new();
    let mut k: usize = 0;
    while k < all.len()
        invariant
            all@.len() == view.len(),
            forall|j: int| 0 <= j < all@.len() ==> #[trigger] sym_view(all@[j]) == view[j],
            k <= all@.len(),
            v@.map_values(|s: Symbol| sym_view(s)) == symbols_scoped(view, global, k as int),
        decreases all@.len() - k,
    {
        proof {
            assert(sym_view(all@[k as int]) == view[k as int]);
        }
        if all[k].name.is_global() == global {
            let s = all[k].duplicate();
            let ghost before = v@;
            v.push(s);
            proof {
                assert(v@.map_values(|s: Symbol| sym_view(s)) =~= before.map_values(|s: Symbol| sym_view(s)).push(
                    sym_view(s),
                ));
            }
        }
        k = k + 1;
    }
    v
}


/// Every symbol of a well-formed module has a well-formed signature.
pub proof fn lemma_symbol_sigs_wf(m: Module)
    requires
        m.wf(),
    ensures
        forall|k: int| 0 <= k < symbol_seq(m).len() ==> (#[trigger] symbol_seq(m)[k]).2.wf(),
{
    m.lemma_ids();
    let nu = m.unit_ids().len();
    assert forall|k: int| 0 <= k < symbol_seq(m).len() implies (#[trigger] symbol_seq(m)[k]).2.wf() by {
        if k < nu {
            let u = m.unit_ids()[k];
            assert(m.unit_ids().contains(u));
            m.lemma_unit_ok(ModUnit(u));
            m.spec_unit(ModUnit(u))->0.lemma_sig_wf();
        } else {
            let d = m.decl_ids()[k - nu];
            assert(m.decl_ids().contains(d));
            m.lemma_decl_ok(DeclId(d));
        }
    }
}

impl Module {
    /// A unit of a well-formed module can take part in linking.
    pub proof fn lemma_unit_ok(&self, u: ModUnit)
        requires
            self.wf(),
            self.spec_unit(u) is Some,
        ensures
            unit_ok(self.spec_unit(u)->0),
    {
        assert(self.units@[u.0 as int] is Some);
    }

    /// A declaration of a well-formed module has a well-formed signature.
    pub proof fn lemma_decl_ok(&self, d: DeclId)
        requires
            self.wf(),
            self.spec_decl(d) is Some,
        ensures
            self.spec_decl(d)->0.sig@.wf(),
    {
        assert(self.decls@[d.0 as int] is Some);
    }

    /// Check whether linking the module would succeed: no name of a
    /// definition is used by another symbol, and every external unit of
    /// every unit resolves to a symbol with the same arguments.
    pub fn links_ok(&self) -> (b: bool)
        requires
            self.wf(),
        ensures
            b == linkable(*self),
    {
        let syms = self.symbols();
        let ghost view = symbol_seq(*self);
        proof {
            lemma_symbol_sigs_wf(*self);
            self.lemma_ids();
        }
        let n = syms.len();
        let mut j: usize = 0;
        while j < n
            invariant
                view == symbol_seq(*self),
                n == syms@.len(),
                n == view.len(),
                forall|k: int| 0 <= k < syms@.len() ==> #[trigger] sym_view(syms@[k]) == view[k],
                j <= n,
                forall|a: int, b: int| 0 <= a < b < j && #[trigger] same_name(view[a].0, view[b].0) ==> !(view[a].1 is Def),
            decreases n - j,
        {
            let mut i: usize = 0;
            while i < j
                invariant
                    view == symbol_seq(*self),
                    n == syms@.len(),
                    n == view.len(),
                    forall|k: int| 0 <= k < syms@.len() ==> #[trigger] sym_view(syms@[k]) == view[k],
                    i <= j,
                    j < n,
                    forall|a: int| 0 <= a < i && #[trigger] same_name(view[a].0, view[j as int].0) ==> !(view[a].1 is Def),
                decreases j - i,
            {
                proof {
                    assert(sym_view(syms@[i as int]) == view[i as int]);
                    assert(sym_view(syms@[j as int]) == view[j as int]);
                }
                if syms[i].unit.is_def() && names_equal(&syms[i].name, &syms[j].name) {
                    proof {
                        assert(same_name(view[i as int].0, view[j as int].0));
                        assert(has_duplicate_def(view));
                    }
                    return false;
                }
                i = i + 1;
            }
            j = j + 1;
        }
        proof {
            assert(!has_duplicate_def(view));
        }
        let us = self.units();
        let mut k: usize = 0;
        while k < us.len()
            invariant
                self.wf(),
                !has_duplicate_def(view),
                view == symbol_seq(*self),
                n == syms@.len(),
                n == view.len(),
                forall|k: int| 0 <= k < syms@.len() ==> #[trigger] sym_view(syms@[k]) == view[k],
                forall|k: int| 0 <= k < view.len() ==> (#[trigger] view[k]).2.wf(),
                us@ == self.unit_ids().map_values(|u: u32| ModUnit(u)),
                forall|x: u32| #[trigger] self.unit_ids().contains(x) <==> self.spec_unit(ModUnit(x)) is Some,
                k <= us@.len(),
                forall|a: int, e: int|
                    #![trigger self.spec_unit(ModUnit(self.unit_ids()[a]))->0.spec_exts()[e]]
                    0 <= a < k && 0 <= e < self.spec_unit(ModUnit(self.unit_ids()[a]))->0.spec_exts().len()
                        ==> ext_resolves(*self, self.unit_ids()[a], e),
            decreases us@.len() - k,
        {
            let u = us[k];
            proof {
                assert(self.unit_ids().contains(self.unit_ids()[k as int]));
                self.lemma_unit_ok(u);
            }
            let data = self.unit(u);
            let unit = crate::ir::unit::Unit::new_anonymous(data);
            let exts = unit.extern_units();
            let mut e: usize = 0;
            while e < exts.len()
                invariant
                    self.wf(),
                    view == symbol_seq(*self),
                    n == syms@.len(),
                    n == view.len(),
                    forall|k: int| 0 <= k < syms@.len() ==> #[trigger] sym_view(syms@[k]) == view[k],
                    forall|k: int| 0 <= k < view.len() ==> (#[trigger] view[k]).2.wf(),
                    unit@ == self.spec_unit(u)->0,
                    self.spec_unit(u) is Some,
                    unit_ok(unit@),
                    exts@.len() == unit@.spec_exts().len(),
                    unit@.spec_exts().len() + 1 < u32::MAX,
                    forall|j: int| 0 <= j < exts@.len() ==> #[trigger] exts@[j] == ExtUnit(j as u32),
                    e <= exts@.len(),
                    forall|x: int| 0 <= x < e ==> #[trigger] ext_resolves(*self, u.0, x),
                decreases exts@.len() - e,
            {
                let ext = exts[e];
                let name = unit.extern_name(ext);
                let r = find_last(&syms, name, Ghost(view));
                match r {
                    None => {
                        proof {
                            assert(!ext_resolves(*self, u.0, e as int));
                            let t = self.spec_unit(ModUnit(u.0))->0.spec_exts()[e as int];
                        }
                        return false;
                    },
                    Some(r) => {
                        proof {
                            assert(sym_view(syms@[r as int]) == view[r as int]);
                            assert(view[r as int].2.wf());
                            assert(unit@.spec_exts()[e as int].sig@.wf());
                        }
                        if !syms[r].sig.eq(unit.extern_sig(ext)) {
                            proof {
                                assert(!ext_resolves(*self, u.0, e as int));
                                let t = self.spec_unit(ModUnit(u.0))->0.spec_exts()[e as int];
                            }
                            return false;
                        }
                    },
                }
                e = e + 1;
            }
            k = k + 1;
        }
        proof {
            assert forall|u: u32, e: int|
                #![trigger self.spec_unit(ModUnit(u))->0.spec_exts()[e]]
                self.spec_unit(ModUnit(u)) is Some && 0 <= e < self.spec_unit(ModUnit(u))->0.spec_exts().len()
                    implies ext_resolves(*self, u, e) by {
                assert(self.unit_ids().contains(u));
                let a = choose|a: int| 0 <= a < self.unit_ids().len() && self.unit_ids()[a] == u;
                assert(self.spec_unit(ModUnit(self.unit_ids()[a]))->0.spec_exts()[e] == self.spec_unit(ModUnit(u))->0.spec_exts()[e]);
            }
        }
        true
    }
}


impl Module {
    /// The link table of a linkable module.
    fn compute_links(&self) -> (t: Vec<(ModUnit, ExtUnit, LinkedUnit)>)
        requires
            self.wf(),
            linkable(*self),
        ensures
            forall|u: ModUnit, e: ExtUnit| #[trigger] link_in(t@, u, e) == expected_link(*self, u, e),
    {
        let syms = self.symbols();
        let ghost view = symbol_seq(*self);
        proof {
            self.lemma_ids();
        }
        let us = self.units();
        let mut t: Vec<(ModUnit, ExtUnit, LinkedUnit)> = Vec::new();
        let mut k: usize = 0;
        while k < us.len()
            invariant
                self.wf(),
                linkable(*self),
                view == symbol_seq(*self),
                syms@.len() == view.len(),
                forall|k: int| 0 <= k < syms@.len() ==> #[trigger] sym_view(syms@[k]) == view[k],
                us@ == self.unit_ids().map_values(|u: u32| ModUnit(u)),
                forall|x: u32| #[trigger] self.unit_ids().contains(x) <==> self.spec_unit(ModUnit(x)) is Some,
                forall|a: int, b: int| 0 <= a < b < self.unit_ids().len() ==> self.unit_ids()[a] < self.unit_ids()[b],
                k <= us@.len(),
                forall|u2: ModUnit, e2: ExtUnit| #[trigger] link_in(t@, u2, e2) == if self.unit_ids().subrange(0, k as int).contains(u2.0) {
                    expected_link(*self, u2, e2)
                } else {
                    None
                },
            decreases us@.len() - k,
        {
            let u = us[k];
            proof {
                assert(self.unit_ids().contains(self.unit_ids()[k as int]));
                self.lemma_unit_ok(u);
            }
            let data = self.unit(u);
            let unit = crate::ir::unit::Unit::new_anonymous(data);
            let exts = unit.extern_units();
            let ghost t0 = t@;
            let mut e: usize = 0;
            while e < exts.len()
                invariant
                    self.wf(),
                    linkable(*self),
                    view == symbol_seq(*self),
                    syms@.len() == view.len(),
                    forall|k: int| 0 <= k < syms@.len() ==> #[trigger] sym_view(syms@[k]) == view[k],
                    unit@ == self.spec_unit(u)->0,
                    self.spec_unit(u) is Some,
                    u == ModUnit(self.unit_ids()[k as int]),
                    exts@.len() == unit@.spec_exts().len(),
                    unit@.spec_exts().len() + 1 < u32::MAX,
                    forall|j: int| 0 <= j < exts@.len() ==> #[trigger] exts@[j] == ExtUnit(j as u32),
                    e <= exts@.len(),
                    forall|u2: ModUnit, e2: ExtUnit| #[trigger] link_in(t@, u2, e2) == if u2 == u && (e2.0 as int) < e {
                        expected_link(*self, u2, e2)
                    } else {
                        link_in(t0, u2, e2)
                    },
                decreases exts@.len() - e,
            {
                let ext = exts[e];
                let name = unit.extern_name(ext);
                proof {
                    let w = self.spec_unit(ModUnit(u.0))->0.spec_exts()[e as int];
                    assert(ext_resolves(*self, u.0, e as int));
                }
                let r = find_last(&syms, name, Ghost(view));
                let r = r.unwrap();
                let ghost before = t@;
                t.push((u, ext, syms[r].unit));
                proof {
                    assert(sym_view(syms@[r as int]) == view[r as int]);
                    assert forall|u2: ModUnit, e2: ExtUnit| #[trigger] link_in(t@, u2, e2) == if u2 == u && (e2.0 as int) < e + 1 {
                        expected_link(*self, u2, e2)
                    } else {
                        link_in(t0, u2, e2)
                    } by {
                        assert(t@.drop_last() == before);
                        assert(t@.last() == (u, ext, syms@[r as int].unit));
                        let prev = link_in(before, u2, e2);
                        if u2 == u && e2 == ext {
                            assert(resolve(*self, unit@.spec_exts()[e as int].name) == Some(view[r as int]));
                            assert(expected_link(*self, u2, e2) == Some(view[r as int].1));
                        } else if u2 == u && (e2.0 as int) < e + 1 {
                            assert(e2.0 != ext.0);
                        }
                    }
                }
                e = e + 1;
            }
            proof {
                assert forall|u2: ModUnit, e2: ExtUnit| #[trigger] link_in(t@, u2, e2) == if self.unit_ids().subrange(0, k as int + 1).contains(u2.0) {
                    expected_link(*self, u2, e2)
                } else {
                    None
                } by {
                    let ids = self.unit_ids();
                    if u2 == u {
                        assert(ids.subrange(0, k as int + 1)[k as int] == u2.0);
                        if ids.subrange(0, k as int).contains(u2.0) {
                            let a = choose|a: int| 0 <= a < k && #[trigger] ids.subrange(0, k as int)[a] == u2.0;
                            assert(ids[a] < ids[k as int]);
                        }
                    } else {
                        if ids.subrange(0, k as int + 1).contains(u2.0) {
                            let a = choose|a: int| 0 <= a < k + 1 && #[trigger] ids.subrange(0, k as int + 1)[a] == u2.0;
                            assert(a != k);
                            assert(ids.subrange(0, k as int)[a] == u2.0);
                        }
                        if ids.subrange(0, k as int).contains(u2.0) {
                            let a = choose|a: int| 0 <= a < k && #[trigger] ids.subrange(0, k as int)[a] == u2.0;
                            assert(ids.subrange(0, k as int + 1)[a] == u2.0);
                        }
                    }
                }
            }
            k = k + 1;
        }
        proof {
            assert(self.unit_ids().subrange(0, k as int) == self.unit_ids());
        }
        t
    }

    /// Link the module: resolve the external units of every unit against
    /// the module's symbols.
    ///
    /// Each external unit links to the last symbol of its name (units come
    /// before declarations, in id order). Linking requires that no
    /// definition shares its name with another symbol, and that every
    /// external unit resolves to a symbol with the same arguments.
    pub fn link(&mut self)
        requires
            old(self).wf(),
            linkable(*old(self)),
        ensures
            final(self).wf(),
            final(self).spec_links() is Some,
            forall|u: ModUnit, e: ExtUnit| #[trigger] link_in(final(self).spec_links()->0, u, e) == expected_link(*old(self), u, e),
            final(self).unit_bound() == old(self).unit_bound(),
            forall|u: ModUnit| #[trigger] final(self).spec_unit(u) == old(self).spec_unit(u),
            final(self).unit_ids() == old(self).unit_ids(),
            final(self).decl_bound() == old(self).decl_bound(),
            forall|d: DeclId| #[trigger] final(self).spec_decl(d) == old(self).spec_decl(d),
            final(self).decl_ids() == old(self).decl_ids(),
            forall|x: ModUnit| #[trigger] final(self).spec_hint(x) == old(self).spec_hint(x),
    {
        let t = self.compute_links();
        self.link_table = Some(t);
    }

    /// What an external unit of a unit links to. The module must have been
    /// linked; otherwise there is no answer.
    pub fn lookup_ext_unit(&self, ext_unit: ExtUnit, within: ModUnit) -> (r: Option<LinkedUnit>)
        ensures
            r == match self.spec_links() {
                Some(t) => link_in(t, within, ext_unit),
                None => None,
            },
    {
        match self.link_table.as_ref() {
            None => None,
            Some(t) => {
                let mut k = t.len();
                proof {
                    assert(t@.subrange(0, k as int) == t@);
                }
                proof {
                    assert(self.spec_links() == Some(t@));
                }
                while k > 0
                    invariant
                        self.spec_links() == Some(t@),
                        k <= t@.len(),
                        link_in(t@, within, ext_unit) == link_in(t@.subrange(0, k as int), within, ext_unit),
                    decreases k,
                {
                    let (u, e, l) = t[k - 1];
                    proof {
                        assert(t@.subrange(0, k as int).drop_last() == t@.subrange(0, k - 1));
                        assert(t@.subrange(0, k as int).last() == t@[k - 1]);
                    }
                    if u == within && e == ext_unit {
                        proof {
                            assert(link_in(t@.subrange(0, k as int), within, ext_unit) == Some(l));
                        }
                        return Some(l);
                    }
                    k = k - 1;
                }
                None
            },
        }
    }
}


/// The first `n` of the given unit ids whose units are of kind `kind`, in
/// order.
pub open spec fn of_kind(m: Module, ids: Seq<u32>, kind: UnitKind, n: int) -> Seq<ModUnit>
    decreases n,
{
    if n <= 0 {
        Seq::empty()
    } else {
        of_kind(m, ids, kind, n - 1) + if m.spec_unit(ModUnit(ids[n - 1]))->0.spec_kind() == kind {
            seq![ModUnit(ids[n - 1])]
        } else {
            Seq::empty()
        }
    }
}

impl Module {
    /// The units of a kind, in id order.
    fn units_of_kind(&self, kind: UnitKind) -> (v: Vec<ModUnit>)
        requires
            self.wf(),
        ensures
            v@ == of_kind(*self, self.unit_ids(), kind, self.unit_ids().len() as int),
    {
        let us = self.units();
        proof {
            self.lemma_ids();
        }
        let mut v: Vec<ModUnit> = Vec::new();
        let mut k: usize = 0;
        while k < us.len()
            invariant
                us@ == self.unit_ids().map_values(|u: u32| ModUnit(u)),
                forall|x: u32| #[trigger] self.unit_ids().contains(x) <==> self.spec_unit(ModUnit(x)) is Some,
                k <= us@.len(),
                v@ == of_kind(*self, self.unit_ids(), kind, k as int),
            decreases us@.len() - k,
        {
            let u = us[k];
            proof {
                assert(self.unit_ids().contains(self.unit_ids()[k as int]));
            }
            if self.unit(u).kind_of() == kind {
                v.push(u);
            }
            k = k + 1;
            proof {
                assert(v@ =~= of_kind(*self, self.unit_ids(), kind, k as int));
            }
        }
        v
    }

    /// The functions of the module, in id order.
    pub fn functions(&self) -> (v: Vec<ModUnit>)
        requires
            self.wf(),
        ensures
            v@ == of_kind(*self, self.unit_ids(), UnitKind::Function, self.unit_ids().len() as int),
    {
        self.units_of_kind(UnitKind::Function)
    }

    /// The processes of the module, in id order.
    pub fn processes(&self) -> (v: Vec<ModUnit>)
        requires
            self.wf(),
        ensures
            v@ == of_kind(*self, self.unit_ids(), UnitKind::Process, self.unit_ids().len() as int),
    {
        self.units_of_kind(UnitKind::Process)
    }

    /// The entities of the module, in id order.
    pub fn entities(&self) -> (v: Vec<ModUnit>)
        requires
            self.wf(),
        ensures
            v@ == of_kind(*self, self.unit_ids(), UnitKind::Entity, self.unit_ids().len() as int),
    {
        self.units_of_kind(UnitKind::Entity)
    }
}


/// The last symbol of a name has that name, and no later symbol has it.
pub proof fn lemma_last_named(syms: Seq<SymbolView>, name: UnitName, n: int)
    requires
        0 <= n <= syms.len(),
    ensures
        match last_named(syms, name, n) {
            Some(k) => 0 <= k < n && same_name(syms[k].0, name) && forall|j: int|
                k < j < n ==> !same_name(#[trigger] syms[j].0, name),
            None => forall|j: int| 0 <= j < n ==> !same_name(#[trigger] syms[j].0, name),
        },
    decreases n,
{
    if n > 0 {
        lemma_last_named(syms, name, n - 1);
    }
}

/// Linking resolves each external unit of each unit to a symbol of the
/// module with the external unit's name and arguments; when that symbol is a
/// definition, no other symbol has its name.
pub proof fn lemma_link_resolves(m: Module, u: ModUnit, e: ExtUnit)
    requires
        m.wf(),
        linkable(m),
        m.spec_unit(u) is Some,
        (e.0 as int) < m.spec_unit(u)->0.spec_exts().len(),
    ensures
        ({
            let syms = symbol_seq(m);
            let ext = m.spec_unit(u)->0.spec_exts()[e.0 as int];
            exists|k: int|
                #![trigger syms[k]]
                {
                    &&& 0 <= k < syms.len()
                    &&& expected_link(m, u, e) == Some(syms[k].1)
                    &&& same_name(syms[k].0, ext.name)
                    &&& syms[k].2.arg_datas() == ext.sig@.arg_datas()
                    &&& syms[k].1 is Def ==> forall|j: int| 0 <= j < syms.len() && j != k ==> !same_name(#[trigger] syms[j].0, ext.name)
                }
        }),
{
    let syms = symbol_seq(m);
    let ext = m.spec_unit(u)->0.spec_exts()[e.0 as int];
    let w = m.spec_unit(ModUnit(u.0))->0.spec_exts()[e.0 as int];
    assert(ext_resolves(m, u.0, e.0 as int));
    lemma_last_named(syms, ext.name, syms.len() as int);
    let k = last_named(syms, ext.name, syms.len() as int)->0;
    assert(syms[k].1 is Def ==> forall|j: int| 0 <= j < syms.len() && j != k ==> !same_name(#[trigger] syms[j].0, ext.name)) by {
        if syms[k].1 is Def {
            assert forall|j: int| 0 <= j < syms.len() && j != k implies !same_name(#[trigger] syms[j].0, ext.name) by {
                if j < k && same_name(syms[j].0, ext.name) {
                    lemma_same_name_eq(syms[j].0, syms[k].0, ext.name);
                    if syms[j].1 is Def {
                        assert(same_name(syms[j].0, syms[k].0));
                    } else {
                        lemma_decls_follow_defs(m, j, k);
                    }
                }
                if j < k && same_name(syms[j].0, ext.name) && syms[j].1 is Def {
                    lemma_same_name_eq(syms[j].0, syms[k].0, ext.name);
                    assert(same_name(syms[j].0, syms[k].0));
                    assert(has_duplicate_def(syms));
                }
            }
        }
    }
}

/// Names that are both the same as a third name are the same.
proof fn lemma_same_name_eq(a: UnitName, b: UnitName, c: UnitName)
    requires
        same_name(a, c),
        same_name(b, c),
    ensures
        same_name(a, b),
{
}

/// In the symbols of a module, every definition comes before every
/// declaration.
proof fn lemma_decls_follow_defs(m: Module, j: int, k: int)
    requires
        0 <= j < k < symbol_seq(m).len(),
        symbol_seq(m)[k].1 is Def,
    ensures
        symbol_seq(m)[j].1 is Def,
{
}

} // verus!
