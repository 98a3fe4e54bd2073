//! Simulation state bookkeeping.

use crate::assembly::push_str;
use crate::ir::keys::Value;
use crate::konst::{decimal, push_decimal, string_push};
use vstd::prelude::*;

verus! {

/// A unique handle to a signal in a simulation state.
#[derive(Clone, Copy, PartialEq, Eq, Structural, Hash, Debug, PartialOrd, Ord)]
pub struct SignalRef(pub usize);

impl SignalRef {
    /// Create a new signal reference.
    pub fn new(id: usize) -> (r: SignalRef)
        ensures
            r.0 == id,
    {
        SignalRef(id)
    }

    /// Return the underlying index of this reference.
    pub fn as_usize(&self) -> (i: usize)
        ensures
            i == self.0,
    {
        self.0
    }
}

/// A unique reference to an instance in the simulation.
#[derive(Clone, Copy, PartialEq, Eq, Structural, Hash, Debug, PartialOrd, Ord)]
pub struct InstanceRef(pub usize);

impl InstanceRef {
    /// Create a new instance reference.
    pub fn new(id: usize) -> (r: InstanceRef)
        ensures
            r.0 == id,
    {
        InstanceRef(id)
    }
}

/// A selection of a part of a value.
#[derive(Clone, Copy, PartialEq, Eq, Structural, Debug)]
pub enum ValueSelect {
    /// An individual array element or struct field.
    Field(usize),
    /// A slice of array elements or integer bits, given by `(offset, length)`.
    Slice(usize, usize),
}

/// The text of a value selection: `.i` for a field, `[o+:l]` for a slice.
pub open spec fn select_text(s: ValueSelect) -> Seq<char> {
    match s {
        ValueSelect::Field(i) => "."@ + decimal(i as nat),
        ValueSelect::Slice(o, l) => "["@ + decimal(o as nat) + "+:"@ + decimal(l as nat) + "]"@,
    }
}

impl ValueSelect {
    /// The text of the selection.
    pub fn to_string(&self) -> (s: String)
        ensures
            s@ == select_text(*self),
    {
        let mut s = String::new();
        match self {
            ValueSelect::Field(i) => {
                push_str(&mut s, ".");
                push_decimal(&mut s, *i as u128);
            },
            ValueSelect::Slice(o, l) => {
                push_str(&mut s, "[");
                push_decimal(&mut s, *o as u128);
                push_str(&mut s, "+:");
                push_decimal(&mut s, *l as u128);
                push_str(&mut s, "]");
            },
        }
        proof {
            assert(s@ =~= select_text(*self));
        }
        s
    }
}

/// A scope: a name, the probed signals with their names, and subscopes.
///
/// Probes are kept per signal, in the order the signals were first probed;
/// each signal appears once.
pub struct Scope {
    /// The name of the scope.
    pub name: String,
    /// The probes in this scope.
    pub probes: Vec<(SignalRef, Vec<String>)>,
    /// The subscopes.
    pub subscopes: Vec<Scope>,
}

/// The names under which a signal is probed in a list of probes.
pub open spec fn probe_names(probes: Seq<(SignalRef, Vec<String>)>, signal: SignalRef) -> Seq<String>
    decreases probes.len(),
{
    if probes.len() == 0 {
        Seq::empty()
    } else if probes.last().0 == signal {
        probes.last().1@
    } else {
        probe_names(probes.drop_last(), signal)
    }
}

/// The signals of a list of probes.
pub open spec fn probed(probes: Seq<(SignalRef, Vec<String>)>, signal: SignalRef) -> bool {
    exists|k: int| 0 <= k < probes.len() && (#[trigger] probes[k]).0 == signal
}

impl Scope {
    /// Each signal appears once among the probes.
    pub open spec fn wf(&self) -> bool {
        forall|a: int, b: int|
            0 <= a < b < self.probes@.len() ==> (#[trigger] self.probes@[a]).0 != (#[trigger] self.probes@[b]).0
    }

    /// Create a new empty scope.
    pub fn new(name: &str) -> (s: Scope)
        ensures
            s.wf(),
            s.name@ == name@,
            s.probes@.len() == 0,
            s.subscopes@.len() == 0,
    {
        Scope { name: name.to_owned(), probes: Vec::new(), subscopes: Vec::new() }
    }

    /// Add a subscope.
    pub fn add_subscope(&mut self, scope: Scope)
        ensures
            final(self).subscopes@ == old(self).subscopes@.push(scope),
            final(self).name == old(self).name,
            final(self).probes == old(self).probes,
    {
        self.subscopes.push(scope);
    }

    /// Add a name under which a signal is probed.
    pub fn add_probe(&mut self, signal: SignalRef, name: String)
        requires
            old(self).wf(),
        ensures
            final(self).wf(),
            probe_names(final(self).probes@, signal).map_values(|n: String| n@) == probe_names(
                old(self).probes@,
                signal,
            ).map_values(|n: String| n@).push(name@),
            forall|s: SignalRef| s != signal ==> #[trigger] probe_names(final(self).probes@, s)
                == probe_names(old(self).probes@, s),
            forall|s: SignalRef| #[trigger] probed(final(self).probes@, s) <==> (probed(old(self).probes@, s) || s
                == signal),
            final(self).name == old(self).name,
            final(self).subscopes == old(self).subscopes,
    {
        let ghost p0 = self.probes@;
        let n = self.probes.len();
        let mut k: usize = 0;
        while k < n
            invariant
                n == self.probes@.len(),
                self.probes@ == p0,
                old(self).probes@ == p0,
                forall|a: int, b: int| 0 <= a < b < p0.len() ==> (#[trigger] p0[a]).0 != (#[trigger] p0[b]).0,
                self.name == old(self).name,
                self.subscopes == old(self).subscopes,
                k <= n,
                forall|j: int| 0 <= j < k ==> (#[trigger] self.probes@[j]).0 != signal,
            decreases n - k,
        {
            if self.probes[k].0 == signal {
                let mut names = self.probes[k].1.clone();
                let ghost before = names@;
                names.push(name);
                let entry = (signal, names);
                self.probes.set(k, entry);
                proof {
                    assert forall|a: int, b: int| 0 <= a < b < self.probes@.len() implies (#[trigger] self.probes@[a]).0
                        != (#[trigger] self.probes@[b]).0 by {
                        assert(self.probes@[a].0 == p0[a].0);
                        assert(self.probes@[b].0 == p0[b].0);
                    }
                    lemma_probe_names_at(p0, k as int, self.probes@, signal);
                    assert forall|s: SignalRef| s != signal implies #[trigger] probe_names(self.probes@, s)
                        == probe_names(p0, s) by {
                        lemma_probe_names_other(p0, k as int, self.probes@, s);
                    }
                    assert forall|s: SignalRef| #[trigger] probed(self.probes@, s) <==> (probed(p0, s) || s == signal) by {
                        if probed(p0, s) {
                            let j = choose|j: int| 0 <= j < p0.len() && (#[trigger] p0[j]).0 == s;
                            assert(self.probes@[j].0 == s);
                        }
                        if probed(self.probes@, s) {
                            let j = choose|j: int| 0 <= j < self.probes@.len() && (#[trigger] self.probes@[j]).0 == s;
                            assert(p0[j].0 == s);
                        }
                        if s == signal {
                            assert(self.probes@[k as int].0 == s);
                        }
                    }
                }
                return;
            }
            k = k + 1;
        }
        let mut names: Vec<String> = Vec::new();
        names.push(name);
        self.probes.push((signal, names));
        proof {
            assert(self.probes@.drop_last() == p0);
            lemma_probe_names_absent(p0, signal);
            assert(probe_names(p0, signal).map_values(|n: String| n@) =~= Seq::<Seq<char>>::empty());
            assert forall|s: SignalRef| #[trigger] probed(self.probes@, s) <==> (probed(p0, s) || s == signal) by {
                if probed(p0, s) {
                    let j = choose|j: int| 0 <= j < p0.len() && (#[trigger] p0[j]).0 == s;
                    assert(self.probes@[j].0 == s);
                }
                if probed(self.probes@, s) {
                    let j = choose|j: int| 0 <= j < self.probes@.len() && (#[trigger] self.probes@[j]).0 == s;
                    if j < p0.len() {
                        assert(p0[j].0 == s);
                    }
                }
                if s == signal {
                    assert(self.probes@[p0.len() as int].0 == s);
                }
            }
        }
    }
}

/// A signal not among the probes has no names.
proof fn lemma_probe_names_absent(p: Seq<(SignalRef, Vec<String>)>, signal: SignalRef)
    requires
        forall|j: int| 0 <= j < p.len() ==> (#[trigger] p[j]).0 != signal,
    ensures
        probe_names(p, signal) == Seq::<String>::empty(),
    decreases p.len(),
{
    if p.len() > 0 {
        assert(p.last() == p[p.len() - 1]);
        lemma_probe_names_absent(p.drop_last(), signal);
    }
}

/// The names of the signal whose entry was replaced are those of the new
/// entry.
proof fn lemma_probe_names_at(p: Seq<(SignalRef, Vec<String>)>, k: int, q: Seq<(SignalRef, Vec<String>)>, signal: SignalRef)
    requires
        0 <= k < p.len(),
        q.len() == p.len(),
        p[k].0 == signal,
        q[k].0 == signal,
        forall|j: int| 0 <= j < p.len() && j != k ==> #[trigger] q[j] == p[j],
        forall|a: int, b: int| 0 <= a < b < p.len() ==> (#[trigger] p[a]).0 != (#[trigger] p[b]).0,
    ensures
        probe_names(q, signal) == q[k].1@,
        probe_names(p, signal) == p[k].1@,
    decreases p.len(),
{
    if k < p.len() - 1 {
        assert(p.last() == p[p.len() - 1]);
        assert(p[p.len() - 1].0 != signal);
        assert(q.last() == q[q.len() - 1]);
        lemma_probe_names_at(p.drop_last(), k, q.drop_last(), signal);
    }
}

/// Replacing the entry of one signal leaves the names of every other signal.
proof fn lemma_probe_names_other(p: Seq<(SignalRef, Vec<String>)>, k: int, q: Seq<(SignalRef, Vec<String>)>, s: SignalRef)
    requires
        0 <= k < p.len(),
        q.len() == p.len(),
        q[k].0 == p[k].0,
        p[k].0 != s,
        forall|j: int| 0 <= j < p.len() && j != k ==> #[trigger] q[j] == p[j],
    ensures
        probe_names(q, s) == probe_names(p, s),
    decreases p.len(),
{
    if p.len() > 0 {
        if k == p.len() - 1 {
            assert(q.drop_last() =~= p.drop_last());
        } else {
            lemma_probe_names_other(p.drop_last(), k, q.drop_last(), s);
        }
    }
}

} // verus!

verus! {

/// A pointer target.
#[derive(Clone, Copy, PartialEq, Eq, Structural, Debug)]
pub enum ValueTarget {
    Value(Value),
    Variable(Value),
    Signal(SignalRef),
}

/// The text of a pointer target: `v3` for a value, `*v3` for a variable,
/// `$s2` for a signal.
pub open spec fn target_text(t: ValueTarget) -> Seq<char> {
    match t {
        ValueTarget::Value(v) => "v"@ + decimal(v.0 as nat),
        ValueTarget::Variable(v) => "*v"@ + decimal(v.0 as nat),
        ValueTarget::Signal(s) => "$s"@ + decimal(s.0 as nat),
    }
}

impl ValueTarget {
    /// Unwrap the underlying value.
    pub fn unwrap_value(&self) -> (v: Value)
        requires
            *self is Value,
        ensures
            v == self->Value_0,
    {
        match *self {
            ValueTarget::Value(v) => v,
            _ => {
                proof {
                    assert(false);
                }
                Value(0)
            },
        }
    }

    /// Unwrap the underlying variable.
    pub fn unwrap_variable(&self) -> (v: Value)
        requires
            *self is Variable,
        ensures
            v == self->Variable_0,
    {
        match *self {
            ValueTarget::Variable(v) => v,
            _ => {
                proof {
                    assert(false);
                }
                Value(0)
            },
        }
    }

    /// Unwrap the underlying signal.
    pub fn unwrap_signal(&self) -> (s: SignalRef)
        requires
            *self is Signal,
        ensures
            s == self->Signal_0,
    {
        match *self {
            ValueTarget::Signal(s) => s,
            _ => {
                proof {
                    assert(false);
                }
                SignalRef(0)
            },
        }
    }

    /// The text of the target.
    pub fn to_string(&self) -> (s: String)
        ensures
            s@ == target_text(*self),
    {
        let mut s = String::new();
        match *self {
            ValueTarget::Value(v) => {
                push_str(&mut s, "v");
                push_decimal(&mut s, v.0 as u128);
            },
            ValueTarget::Variable(v) => {
                push_str(&mut s, "*v");
                push_decimal(&mut s, v.0 as u128);
            },
            ValueTarget::Signal(r) => {
                push_str(&mut s, "$s");
                push_decimal(&mut s, r.0 as u128);
            },
        }
        proof {
            assert(s@ =~= target_text(*self));
        }
        s
    }
}

/// A slice of a pointer: a target, a selection into it, and the width of
/// the selected part (0 for a struct).
#[derive(Clone, Debug)]
pub struct ValueSlice {
    /// The targeted value, variable, or signal.
    pub target: ValueTarget,
    /// The selection into the target.
    pub select: Vec<ValueSelect>,
    /// The width of this slice, or 0 if it is a struct.
    pub width: usize,
}

/// The texts of a sequence of selections, one after the other.
pub open spec fn selects_text(ss: Seq<ValueSelect>) -> Seq<char>
    decreases ss.len(),
{
    if ss.len() == 0 {
        Seq::empty()
    } else {
        selects_text(ss.drop_last()) + select_text(ss.last())
    }
}

/// The text of a slice: its target, then its selections.
pub open spec fn slice_text(s: ValueSlice) -> Seq<char> {
    target_text(s.target) + selects_text(s.select@)
}

impl ValueSlice {
    /// The text of the slice.
    pub fn to_string(&self) -> (s: String)
        ensures
            s@ == slice_text(*self),
    {
        let mut s = self.target.to_string();
        let ghost t0 = s@;
        let mut k: usize = 0;
        while k < self.select.len()
            invariant
                k <= self.select@.len(),
                s@ == t0 + selects_text(self.select@.subrange(0, k as int)),
            decreases self.select@.len() - k,
        {
            let t = self.select[k].to_string();
            push_str(&mut s, t.as_str());
            proof {
                let s1 = self.select@.subrange(0, k + 1);
                assert(s1.drop_last() =~= self.select@.subrange(0, k as int));
                assert(s@ =~= t0 + selects_text(s1));
            }
            k = k + 1;
        }
        proof {
            assert(self.select@.subrange(0, k as int) =~= self.select@);
        }
        s
    }
}

/// A pointer to a value: a variable or signal referenced in its entirety,
/// or by selecting a subset of its elements, bits, or fields.
#[derive(Clone, Debug)]
pub struct ValuePointer(pub Vec<ValueSlice>);

/// The sum of the widths of the first `n` slices.
pub open spec fn widths_upto(ss: Seq<ValueSlice>, n: int) -> int
    decreases n,
{
    if n <= 0 {
        0
    } else {
        widths_upto(ss, n - 1) + ss[n - 1].width
    }
}

/// The slices' texts, each led by a separator (none before the first in
/// the plain form, a line break and indentation before each in the
/// alternate form).
pub open spec fn slices_text(ss: Seq<ValueSlice>, alternate: bool) -> Seq<char>
    decreases ss.len(),
{
    if ss.len() == 0 {
        Seq::empty()
    } else {
        slices_text(ss.drop_last(), alternate) + (if alternate {
            "\n    "@
        } else if ss.len() > 1 {
            ", "@
        } else {
            Seq::empty()
        }) + slice_text(ss.last())
    }
}

/// The text of a pointer: a single slice as it is; otherwise the slices in
/// brackets, separated by commas, or each on a line of its own in the
/// alternate form.
pub open spec fn pointer_text(p: ValuePointer, alternate: bool) -> Seq<char> {
    if p.0@.len() == 1 {
        slice_text(p.0@[0])
    } else {
        "["@ + slices_text(p.0@, alternate) + if alternate {
            "\n]"@
        } else {
            "]"@
        }
    }
}

/// Widths are non-negative, and grow along the slices.
proof fn lemma_widths_mono(ss: Seq<ValueSlice>, m: int, n: int)
    requires
        0 <= m <= n <= ss.len(),
    ensures
        0 <= widths_upto(ss, m) <= widths_upto(ss, n),
    decreases n,
{
    if n > 0 {
        if m < n {
            lemma_widths_mono(ss, m, n - 1);
        } else {
            lemma_widths_mono(ss, m - 1, n - 1);
        }
    }
}

impl ValuePointer {
    /// The width of the pointed-at value: the sum of the slices' widths
    /// (structs count 0).
    pub fn width(&self) -> (w: usize)
        requires
            widths_upto(self.0@, self.0@.len() as int) <= usize::MAX,
        ensures
            w == widths_upto(self.0@, self.0@.len() as int),
    {
        let mut w: usize = 0;
        let mut k: usize = 0;
        while k < self.0.len()
            invariant
                k <= self.0@.len(),
                widths_upto(self.0@, self.0@.len() as int) <= usize::MAX,
                w == widths_upto(self.0@, k as int),
            decreases self.0@.len() - k,
        {
            proof {
                lemma_widths_mono(self.0@, k + 1, self.0@.len() as int);
            }
            w = w + self.0[k].width;
            k = k + 1;
        }
        w
    }

    /// The slices with their offsets: each slice's offset is the sum of the
    /// widths of the slices before it.
    pub fn offset_slices(&self) -> (v: Vec<(usize, &ValueSlice)>)
        requires
            widths_upto(self.0@, self.0@.len() as int) <= usize::MAX,
        ensures
            v@.len() == self.0@.len(),
            forall|k: int| 0 <= k < v@.len() ==> (#[trigger] v@[k]).0 == widths_upto(self.0@, k) && *v@[k].1 == self.0@[k],
    {
        let mut v: Vec<(usize, &ValueSlice)> = Vec::new();
        let mut i: usize = 0;
        let mut k: usize = 0;
        while k < self.0.len()
            invariant
                k <= self.0@.len(),
                widths_upto(self.0@, self.0@.len() as int) <= usize::MAX,
                i == widths_upto(self.0@, k as int),
                v@.len() == k,
                forall|j: int| 0 <= j < k ==> (#[trigger] v@[j]).0 == widths_upto(self.0@, j) && *v@[j].1 == self.0@[j],
            decreases self.0@.len() - k,
        {
            proof {
                lemma_widths_mono(self.0@, k + 1, self.0@.len() as int);
            }
            let s = &self.0[k];
            v.push((i, s));
            i = i + s.width;
            k = k + 1;
        }
        v
    }

    /// The text of the pointer, in the plain or the alternate form.
    pub fn to_string(&self, alternate: bool) -> (s: String)
        ensures
            s@ == pointer_text(*self, alternate),
    {
        let mut s = String::new();
        let single = self.0.len() == 1;
        if single {
            let t = self.0[0].to_string();
            push_str(&mut s, t.as_str());
            proof {
                assert(s@ =~= pointer_text(*self, alternate));
            }
            return s;
        }
        push_str(&mut s, "[");
        let ghost t0 = s@;
        let mut k: usize = 0;
        while k < self.0.len()
            invariant
                k <= self.0@.len(),
                self.0@.len() != 1,
                s@ == t0 + slices_text(self.0@.subrange(0, k as int), alternate),
            decreases self.0@.len() - k,
        {
            if alternate {
                push_str(&mut s, "\n    ");
            } else if k > 0 {
                push_str(&mut s, ", ");
            }
            let t = self.0[k].to_string();
            push_str(&mut s, t.as_str());
            proof {
                let s1 = self.0@.subrange(0, k + 1);
                assert(s1.drop_last() =~= self.0@.subrange(0, k as int));
                assert(s@ =~= t0 + slices_text(s1, alternate));
            }
            k = k + 1;
        }
        if alternate {
            push_str(&mut s, "\n]");
        } else {
            push_str(&mut s, "]");
        }
        proof {
            assert(self.0@.subrange(0, k as int) =~= self.0@);
            assert(s@ =~= pointer_text(*self, alternate));
        }
        s
    }
}

} // verus!
