//! Representation of the input and output arguments of functions, processes,
//! and entitites.

use crate::ir::keys::Arg;
use crate::ty::Type;
use vstd::prelude::*;

verus! {

/// Argument direction.
#[derive(Clone, Copy, PartialEq, Eq, Structural, Debug)]
pub enum ArgDir {
    Input,
    Output,
}

/// A single argument of a `Function`, `Process`, or `Entity`.
pub struct ArgData {
    pub ty: Type,
    pub dir: ArgDir,
    pub num: u16,
}

impl ArgData {
    /// A copy of this argument description.
    pub fn duplicate(&self) -> (r: ArgData)
        ensures
            r == *self,
    {
        ArgData { ty: self.ty.duplicate(), dir: self.dir, num: self.num }
    }

    /// Check whether two argument descriptions are the same.
    pub fn same_as(&self, other: &ArgData) -> (b: bool)
        ensures
            b == (*self == *other),
    {
        self.ty.same_as(&other.ty) && self.dir == other.dir && self.num == other.num
    }
}

/// The abstract content of a signature.
pub struct SignatureView {
    /// The argument table, indexed by `Arg`.
    pub args: Seq<ArgData>,
    /// The input arguments in order.
    pub inp: Seq<Arg>,
    /// The output arguments in order.
    pub oup: Seq<Arg>,
    /// The return type, if any.
    pub retty: Option<Type>,
}

/// A description of the input and output arguments of a unit.
pub struct Signature {
    args: Vec<ArgData>,
    inp: Vec<Arg>,
    oup: Vec<Arg>,
    retty: Option<Type>,
}

impl View for Signature {
    type V = SignatureView;

    closed spec fn view(&self) -> SignatureView {
        SignatureView { args: self.args@, inp: self.inp@, oup: self.oup@, retty: self.retty }
    }
}

impl SignatureView {
    /// `arg` names an entry of the argument table.
    pub open spec fn has_arg(self, arg: Arg) -> bool {
        (arg.0 as int) < self.args.len()
    }

    /// Inputs first, then outputs.
    pub open spec fn all_args(self) -> Seq<Arg> {
        self.inp + self.oup
    }

    /// The argument descriptions in `all_args` order.
    pub open spec fn arg_datas(self) -> Seq<ArgData> {
        self.all_args().map_values(|a: Arg| self.args[a.0 as int])
    }

    /// Every listed argument names an entry of the table, and every entry
    /// is listed with the matching direction.
    pub open spec fn wf(self) -> bool {
        &&& forall|k: int| 0 <= k < self.inp.len() ==> (#[trigger] self.inp[k].0 as int) < self.args.len()
        &&& forall|k: int| 0 <= k < self.oup.len() ==> (#[trigger] self.oup[k].0 as int) < self.args.len()
        &&& forall|a: Arg|
            self.has_arg(a) ==> ((#[trigger] self.args[a.0 as int]).dir == ArgDir::Input <==> self.inp.contains(a))
        &&& forall|a: Arg|
            self.has_arg(a) ==> ((#[trigger] self.args[a.0 as int]).dir == ArgDir::Output <==> self.oup.contains(a))
    }
}

impl Signature {
    /// Create a new signature.
    pub fn new() -> (s: Self)
        ensures
            s@.wf(),
            s@.args == Seq::<ArgData>::empty(),
            s@.inp == Seq::<Arg>::empty(),
            s@.oup == Seq::<Arg>::empty(),
            s@.retty is None,
    {
        Signature { args: Vec::new(), inp: Vec::new(), oup: Vec::new(), retty: None }
    }

    /// Add an input argument.
    pub fn add_input(&mut self, ty: Type) -> (arg: Arg)
        requires
            old(self)@.wf(),
            old(self)@.args.len() < u32::MAX,
        ensures
            final(self)@.wf(),
            arg.0 == old(self)@.args.len(),
            final(self)@.args == old(self)@.args.push(
                ArgData { ty, dir: ArgDir::Input, num: (#[verifier::truncate] (old(self)@.inp.len() as u16)) },
            ),
            final(self)@.inp == old(self)@.inp.push(arg),
            final(self)@.oup == old(self)@.oup,
            final(self)@.retty == old(self)@.retty,
    {
        let num = #[verifier::truncate] (self.inp.len() as u16);
        let arg = Arg(self.args.len() as u32);
        self.args.push(ArgData { ty, dir: ArgDir::Input, num });
        self.inp.push(arg);
        proof {
            assert forall|k: int| 0 <= k < self@.inp.len() implies (#[trigger] self@.inp[k].0 as int) < self@.args.len() by {
                if k < old(self)@.inp.len() {
                    assert(self@.inp[k] == old(self)@.inp[k]);
                }
            }
            assert forall|k: int| 0 <= k < self@.oup.len() implies (#[trigger] self@.oup[k].0 as int) < self@.args.len() by {
                assert(self@.oup[k] == old(self)@.oup[k]);
            }
            assert forall|a: Arg| self@.has_arg(a) implies ((#[trigger] self@.args[a.0 as int]).dir == ArgDir::Input
                <==> self@.inp.contains(a)) && (self@.args[a.0 as int].dir == ArgDir::Output <==> self@.oup.contains(a)) by {
                if a == arg {
                    assert(self@.inp.last() == arg);
                    if self@.oup.contains(a) {
                        let j = choose|j: int| 0 <= j < self@.oup.len() && self@.oup[j] == a;
                        assert(self@.oup[j] == old(self)@.oup[j]);
                    }
                } else {
                    assert(a.0 < old(self)@.args.len());
                    assert(self@.args[a.0 as int] == old(self)@.args[a.0 as int]);
                    if self@.inp.contains(a) {
                        let j = choose|j: int| 0 <= j < self@.inp.len() && self@.inp[j] == a;
                        assert(j < old(self)@.inp.len());
                        assert(old(self)@.inp[j] == a);
                    }
                    if old(self)@.inp.contains(a) {
                        let j = choose|j: int| 0 <= j < old(self)@.inp.len() && old(self)@.inp[j] == a;
                        assert(self@.inp[j] == a);
                    }
                    assert(self@.oup == old(self)@.oup);
                }
            }
        }
        arg
    }

    /// Add an output argument.
    pub fn add_output(&mut self, ty: Type) -> (arg: Arg)
        requires
            old(self)@.wf(),
            old(self)@.args.len() < u32::MAX,
        ensures
            final(self)@.wf(),
            arg.0 == old(self)@.args.len(),
            final(self)@.args == old(self)@.args.push(
                ArgData { ty, dir: ArgDir::Output, num: (#[verifier::truncate] (old(self)@.oup.len() as u16)) },
            ),
            final(self)@.oup == old(self)@.oup.push(arg),
            final(self)@.inp == old(self)@.inp,
            final(self)@.retty == old(self)@.retty,
    {
        let num = #[verifier::truncate] (self.oup.len() as u16);
        let arg = Arg(self.args.len() as u32);
        self.args.push(ArgData { ty, dir: ArgDir::Output, num });
        self.oup.push(arg);
        proof {
            assert forall|k: int| 0 <= k < self@.oup.len() implies (#[trigger] self@.oup[k].0 as int) < self@.args.len() by {
                if k < old(self)@.oup.len() {
                    assert(self@.oup[k] == old(self)@.oup[k]);
                }
            }
            assert forall|k: int| 0 <= k < self@.inp.len() implies (#[trigger] self@.inp[k].0 as int) < self@.args.len() by {
                assert(self@.inp[k] == old(self)@.inp[k]);
            }
            assert forall|a: Arg| self@.has_arg(a) implies ((#[trigger] self@.args[a.0 as int]).dir == ArgDir::Input
                <==> self@.inp.contains(a)) && (self@.args[a.0 as int].dir == ArgDir::Output <==> self@.oup.contains(a)) by {
                if a == arg {
                    assert(self@.oup.last() == arg);
                    if self@.inp.contains(a) {
                        let j = choose|j: int| 0 <= j < self@.inp.len() && self@.inp[j] == a;
                        assert(self@.inp[j] == old(self)@.inp[j]);
                    }
                } else {
                    assert(a.0 < old(self)@.args.len());
                    assert(self@.args[a.0 as int] == old(self)@.args[a.0 as int]);
                    if self@.oup.contains(a) {
                        let j = choose|j: int| 0 <= j < self@.oup.len() && self@.oup[j] == a;
                        assert(j < old(self)@.oup.len());
                        assert(old(self)@.oup[j] == a);
                    }
                    if old(self)@.oup.contains(a) {
                        let j = choose|j: int| 0 <= j < old(self)@.oup.len() && old(self)@.oup[j] == a;
                        assert(self@.oup[j] == a);
                    }
                    assert(self@.inp == old(self)@.inp);
                }
            }
        }
        arg
    }

    /// Set the return type of the signature.
    pub fn set_return_type(&mut self, ty: Type)
        ensures
            final(self)@ == (SignatureView { retty: Some(ty), ..old(self)@ }),
    {
        self.retty = Some(ty);
    }

    /// Get the return type of the signature.
    pub fn return_type(&self) -> (t: Type)
        requires
            self@.retty is Some,
        ensures
            t == self@.retty->0,
    {
        match &self.retty {
            Some(t) => t.duplicate(),
            None => { proof { assert(false); } unreached() },
        }
    }

    /// Check whether the signature has any inputs.
    pub fn has_inputs(&self) -> (b: bool)
        ensures
            b == (self@.inp.len() > 0),
    {
        self.inp.len() > 0
    }

    /// Check whether the signature has any outputs.
    pub fn has_outputs(&self) -> (b: bool)
        ensures
            b == (self@.oup.len() > 0),
    {
        self.oup.len() > 0
    }

    /// Check whether the signature has a return type.
    pub fn has_return_type(&self) -> (b: bool)
        ensures
            b == (self@.retty is Some),
    {
        self.retty.is_some()
    }

    /// The inputs of the signature.
    pub fn inputs(&self) -> (v: Vec<Arg>)
        ensures
            v@ == self@.inp,
    {
        self.inp.clone()
    }

    /// The outputs of the signature.
    pub fn outputs(&self) -> (v: Vec<Arg>)
        ensures
            v@ == self@.oup,
    {
        self.oup.clone()
    }

    /// The arguments of the signature.
    ///
    /// Inputs come first, then outputs.
    pub fn args(&self) -> (v: Vec<Arg>)
        ensures
            v@ == self@.all_args(),
    {
        let mut v = self.inp.clone();
        let mut k: usize = 0;
        while k < self.oup.len()
            invariant
                k <= self.oup@.len(),
                v@ == self.inp@ + self.oup@.subrange(0, k as int),
            decreases self.oup@.len() - k,
        {
            v.push(self.oup[k]);
            k = k + 1;
            assert(v@ =~= self.inp@ + self.oup@.subrange(0, k as int));
        }
        assert(self.oup@.subrange(0, k as int) =~= self.oup@);
        v
    }

    /// Return the type of argument `arg`.
    pub fn arg_type(&self, arg: Arg) -> (t: Type)
        requires
            self@.has_arg(arg),
        ensures
            t == self@.args[arg.0 as int].ty,
    {
        self.args[arg.0 as usize].ty.duplicate()
    }

    /// Check whether `arg` is an input.
    pub fn is_input(&self, arg: Arg) -> (b: bool)
        requires
            self@.has_arg(arg),
        ensures
            b == (self@.args[arg.0 as int].dir == ArgDir::Input),
    {
        self.args[arg.0 as usize].dir == ArgDir::Input
    }

    /// Check whether `arg` is an output.
    pub fn is_output(&self, arg: Arg) -> (b: bool)
        requires
            self@.has_arg(arg),
        ensures
            b == (self@.args[arg.0 as int].dir == ArgDir::Output),
    {
        self.args[arg.0 as usize].dir == ArgDir::Output
    }

    /// Check whether two signatures describe the same arguments: the same
    /// number of arguments, and pairwise the same type, direction, and
    /// position, in `args` order. The return type is not compared.
    pub fn eq(&self, other: &Signature) -> (b: bool)
        requires
            self@.wf(),
            other@.wf(),
        ensures
            b == (self@.arg_datas() == other@.arg_datas()),
    {

        let a = self.args();
        let b = other.args();
        if a.len() != b.len() {
            proof {
                assert(self@.arg_datas().len() != other@.arg_datas().len());
            }
            return false;
        }
        let mut k: usize = 0;
        while k < a.len()
            invariant
                a@ == self@.all_args(),
                b@ == other@.all_args(),
                a@.len() == b@.len(),
                self@.wf(),
                other@.wf(),
                k <= a@.len(),
                forall|j: int| 0 <= j < k ==> self@.args[a@[j].0 as int] == other@.args[b@[j].0 as int],
            decreases a@.len() - k,
        {
            proof {
                self.lemma_all_args_valid(k as int);
                other.lemma_all_args_valid(k as int);
            }
            if !self.args[a[k].0 as usize].same_as(&other.args[b[k].0 as usize]) {
                proof {
                    assert(self@.arg_datas()[k as int] != other@.arg_datas()[k as int]);
                }
                return false;
            }
            k = k + 1;
        }
        assert(self@.arg_datas() =~= other@.arg_datas());
        true
    }

    /// Every argument listed in the signature names an entry of its table.
    pub proof fn lemma_all_args_valid(&self, k: int)
        requires
            self@.wf(),
            0 <= k < self@.all_args().len(),
        ensures
            (self@.all_args()[k].0 as int) < self@.args.len(),
    {
        if k < self@.inp.len() {
            assert(self@.all_args()[k] == self@.inp[k]);
        } else {
            assert(self@.all_args()[k] == self@.oup[k - self@.inp.len()]);
        }
    }

    /// An argument of a well-formed signature is an input exactly when it
    /// is among the inputs, an output exactly when it is among the outputs,
    /// and so exactly one of the two.
    pub proof fn lemma_arg_direction(&self, a: Arg)
        requires
            self@.wf(),
            self@.has_arg(a),
        ensures
            (self@.args[a.0 as int].dir == ArgDir::Input) <==> self@.inp.contains(a),
            (self@.args[a.0 as int].dir == ArgDir::Output) <==> self@.oup.contains(a),
            (self@.args[a.0 as int].dir == ArgDir::Input) <==> !(self@.args[a.0 as int].dir == ArgDir::Output),
    {
    }

    /// The number of entries in the argument table.
    pub(crate) fn arg_count(&self) -> (n: usize)
        ensures
            n == self@.args.len(),
    {
        self.args.len()
    }

    /// A copy of this signature.
    pub fn duplicate(&self) -> (s: Signature)
        ensures
            s@ == self@,
    {
        let mut args: Vec<ArgData> = Vec::new();
        let mut k: usize = 0;
        while k < self.args.len()
            invariant
                k <= self.args@.len(),
                args@ == self.args@.subrange(0, k as int),
            decreases self.args@.len() - k,
        {
            args.push(self.args[k].duplicate());
            k = k + 1;
            assert(args@ =~= self.args@.subrange(0, k as int));
        }
        assert(self.args@.subrange(0, k as int) =~= self.args@);
        let retty = match &self.retty {
            Some(t) => Some(t.duplicate()),
            None => None,
        };
        Signature { args, inp: self.inp.clone(), oup: self.oup.clone(), retty }
    }
}

} // verus!
