//! Names as they appear in LLHD IR assembly.

use crate::assembly::push_str;
use crate::ir::keys::{Inst, Value};
use crate::konst::{decimal, push_decimal};
use vstd::prelude::*;
use vstd::string::StrSliceExecFns;

verus! {

/// An instruction or a value.
#[derive(Clone, Copy, PartialEq, Eq, Structural, Debug)]
pub enum InstOrValue {
    /// An instruction.
    Inst(Inst),
    /// A value.
    Value(Value),
}

/// A local name such as `%0` or `%foo`.
#[derive(Clone, Copy, PartialEq, Eq, Hash, Debug)]
pub enum LocalName<'a> {
    /// A name made of digits only.
    Anonymous(u32),
    /// Any other name.
    Named(&'a str),
}

/// Every character is a decimal digit.
pub open spec fn all_digits(s: Seq<char>) -> bool {
    forall|i: int| 0 <= i < s.len() ==> '0' <= #[trigger] s[i] && s[i] <= '9'
}

/// The number that a string of decimal digits denotes.
pub open spec fn digits_value(s: Seq<char>) -> nat
    decreases s.len(),
{
    if s.len() == 0 {
        0
    } else {
        digits_value(s.drop_last()) * 10 + ((s.last() as u32) - 48) as nat
    }
}

/// The text of a local name.
pub open spec fn local_name_text(n: LocalName) -> Seq<char> {
    match n {
        LocalName::Anonymous(x) => "%"@ + decimal(x as nat),
        LocalName::Named(s) => "%"@ + s@,
    }
}

impl<'a> LocalName<'a> {
    /// The local name written as `name` after its `%`: a name made of digits
    /// only is anonymous, with the number the digits denote.
    pub fn from_name(name: &'a str) -> (n: LocalName<'a>)
        requires
            all_digits(name@) ==> name@.len() > 0 && digits_value(name@) <= u32::MAX,
        ensures
            all_digits(name@) ==> n == LocalName::Anonymous(digits_value(name@) as u32),
            !all_digits(name@) ==> n == LocalName::Named(name),
    {
        let len = name.unicode_len();
        let mut i: usize = 0;
        while i < len
            invariant
                len == name@.len(),
                i <= len,
                all_digits(name@.subrange(0, i as int)),
            decreases len - i,
        {
            let c = name.get_char(i);
            if !(c >= '0' && c <= '9') {
                proof {
                    assert(!all_digits(name@));
                }
                return LocalName::Named(name);
            }
            proof {
                assert(all_digits(name@.subrange(0, i as int + 1)));
            }
            i = i + 1;
        }
        proof {
            assert(name@.subrange(0, len as int) =~= name@);
        }
        let mut i: usize = 0;
        let mut value: u64 = 0;
        while i < len
            invariant
                len == name@.len(),
                i <= len,
                all_digits(name@),
                value == digits_value(name@.subrange(0, i as int)),
                digits_value(name@) <= u32::MAX,
            decreases len - i,
        {
            let c = name.get_char(i);
            proof {
                let t = name@.subrange(0, i as int + 1);
                assert(t.drop_last() =~= name@.subrange(0, i as int));
                assert(t.last() == c);
                assert(all_digits(t));
                lemma_digits_prefix(name@, i as int + 1);
            }
            value = value * 10 + ((c as u32) - 48) as u64;
            i = i + 1;
        }
        proof {
            assert(name@.subrange(0, len as int) =~= name@);
        }
        LocalName::Anonymous(value as u32)
    }

    /// The text of the name.
    pub fn to_string(&self) -> (s: String)
        ensures
            s@ == local_name_text(*self),
    {
        let mut s = String::new();
        push_str(&mut s, "%");
        match self {
            LocalName::Anonymous(x) => push_decimal(&mut s, *x as u128),
            LocalName::Named(x) => push_str(&mut s, x),
        }
        s
    }
}

/// A prefix of digits denotes no more than the whole string.
proof fn lemma_digits_prefix(s: Seq<char>, n: int)
    requires
        all_digits(s),
        0 <= n <= s.len(),
    ensures
        digits_value(s.subrange(0, n)) <= digits_value(s),
    decreases s.len() - n,
{
    if n < s.len() {
        lemma_digits_prefix(s, n + 1);
        let t = s.subrange(0, n + 1);
        assert(t.drop_last() =~= s.subrange(0, n));
        assert('0' <= t.last());
    } else {
        assert(s.subrange(0, n) =~= s);
    }
}

/// A label.
#[derive(Clone, Copy, PartialEq, Eq, Hash, Debug)]
pub struct Label<'a>(pub LocalName<'a>);

impl Label<'_> {
    /// The text of the label.
    pub fn to_string(&self) -> (s: String)
        ensures
            s@ == local_name_text(self.0),
    {
        self.0.to_string()
    }
}

} // verus!
