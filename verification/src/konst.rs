//! Constant values.

use crate::aggregate::{AggregateKind, ArrayAggregate, StructAggregate};
use crate::ty::{array_ty, int_ty, struct_ty, time_ty, Type, TypeKind};
use crate::value::ValueRef;
use std::sync::Arc;
use vstd::prelude::*;

verus! {

/// Arbitrary-precision integers of the `num` crate. Constants carry them
/// through unchanged; nothing in this crate looks inside one.
#[verifier::external_type_specification]
#[verifier::external_body]
pub struct ExBigInt(num::BigInt);

/// `num::BigInt::zero()` (via the `Zero` trait): the integer zero. The
/// contract states nothing of the result, since a `BigInt` has no
/// observable content here.
#[verifier::external_body]
fn bigint_zero() -> num::BigInt {
    <num::BigInt as num::Zero>::zero()
}

/// `Clone::clone` on `num::BigInt`. The contract states nothing of the
/// result, since a `BigInt` has no observable content here.
#[verifier::external_body]
fn bigint_clone(v: &num::BigInt) -> num::BigInt {
    v.clone()
}

/// `ToString::to_string` on `num::BigInt`: its decimal digits, led by a
/// minus sign where it is negative. The contract states nothing of the
/// result, since a `BigInt` has no observable content here.
#[verifier::external_body]
pub(crate) fn bigint_text(v: &num::BigInt) -> String {
    v.to_string()
}

/// `String::push`: appends one character.
#[verifier::external_body]
pub(crate) fn string_push(s: &mut String, c: char)
    ensures
        final(s)@ == old(s)@.push(c),
{
    s.push(c)
}

/// A constant integer value, together with the text it is written as.
pub struct ConstInt {
    width: usize,
    value: num::BigInt,
    text: String,
}

/// The integer constants of the IR.
pub type IntValue = ConstInt;

impl ConstInt {
    /// The width of the constant in bits.
    pub closed spec fn spec_width(&self) -> usize {
        self.width
    }

    /// The text the value is written as: its decimal digits, led by a
    /// minus sign where it is negative.
    pub closed spec fn spec_text(&self) -> Seq<char> {
        self.text@
    }

    /// Create a new constant integer. Its text is the one `num` gives the
    /// value.
    pub fn new(width: usize, value: num::BigInt) -> (c: ConstInt)
        ensures
            c.spec_width() == width,
    {
        let text = bigint_text(&value);
        ConstInt { width, value, text }
    }

    /// The zero value of the given width.
    pub fn zero(width: usize) -> (c: ConstInt)
        ensures
            c.spec_width() == width,
            c.spec_text() == "0"@,
    {
        let mut text = String::new();
        string_push(&mut text, '0');
        proof {
            reveal_strlit("0");
            assert(text@ =~= "0"@);
        }
        ConstInt { width, value: bigint_zero(), text }
    }

    /// Get the width of the constant in bits.
    pub fn width(&self) -> (w: usize)
        ensures
            w == self.spec_width(),
    {
        self.width
    }

    /// Get the value of the constant.
    pub fn value(&self) -> &num::BigInt {
        &self.value
    }

    /// The text the value is written as.
    pub fn text(&self) -> (s: &str)
        ensures
            s@ == self.spec_text(),
    {
        self.text.as_str()
    }

    /// The type of the constant.
    pub fn ty(&self) -> (t: Type)
        ensures
            t == TypeKind::IntType(self.spec_width()),
    {
        int_ty(self.width)
    }

    /// A copy of this constant.
    pub fn duplicate(&self) -> (c: ConstInt)
        ensures
            c.spec_width() == self.spec_width(),
            c.spec_text() == self.spec_text(),
    {
        ConstInt { width: self.width, value: bigint_clone(&self.value), text: self.text.clone() }
    }
}

/// A non-negative rational number `numer / denom`.
#[derive(Clone, Copy, Debug)]
pub struct Ratio {
    pub numer: u64,
    pub denom: u64,
}

impl Ratio {
    /// Create the ratio `numer / denom`.
    pub fn new(numer: u64, denom: u64) -> (r: Ratio)
        requires
            denom != 0,
        ensures
            r.numer == numer,
            r.denom == denom,
    {
        Ratio { numer, denom }
    }

    /// The integer `n`.
    pub fn from_integer(n: u64) -> (r: Ratio)
        ensures
            r.numer == n,
            r.denom == 1,
    {
        Ratio { numer: n, denom: 1 }
    }

    /// The ratio is a valid number.
    pub open spec fn wf(self) -> bool {
        self.denom != 0
    }

    /// Check whether two ratios denote the same number.
    pub fn same_as(&self, other: &Ratio) -> (b: bool)
        ensures
            b == (self.numer * other.denom == other.numer * self.denom),
    {
        let a = self.numer as u128;
        let b = other.denom as u128;
        let c = other.numer as u128;
        let d = self.denom as u128;
        assert(a * b <= 0xffff_ffff_ffff_ffffu128 * 0xffff_ffff_ffff_ffffu128) by (nonlinear_arith)
            requires a <= 0xffff_ffff_ffff_ffffu128, b <= 0xffff_ffff_ffff_ffffu128;
        assert(c * d <= 0xffff_ffff_ffff_ffffu128 * 0xffff_ffff_ffff_ffffu128) by (nonlinear_arith)
            requires c <= 0xffff_ffff_ffff_ffffu128, d <= 0xffff_ffff_ffff_ffffu128;
        a * b == c * d
    }
}

/// A constant time value: a physical time in seconds, plus delta and epsilon
/// steps.
#[derive(Clone, Copy, Debug)]
pub struct ConstTime {
    time: Ratio,
    delta: usize,
    epsilon: usize,
}

/// The time values of the IR.
pub type TimeValue = ConstTime;

/// The SI prefix with the given index.
pub open spec fn si_prefix(i: nat) -> Seq<char> {
    if i == 0 {
        ""@
    } else if i == 1 {
        "m"@
    } else if i == 2 {
        "u"@
    } else if i == 3 {
        "n"@
    } else if i == 4 {
        "p"@
    } else if i == 5 {
        "f"@
    } else {
        "a"@
    }
}

/// The decimal digit for `d`.
pub open spec fn digit_char(d: nat) -> char {
    if d == 0 {
        '0'
    } else if d == 1 {
        '1'
    } else if d == 2 {
        '2'
    } else if d == 3 {
        '3'
    } else if d == 4 {
        '4'
    } else if d == 5 {
        '5'
    } else if d == 6 {
        '6'
    } else if d == 7 {
        '7'
    } else if d == 8 {
        '8'
    } else {
        '9'
    }
}

/// The decimal representation of `n`, without leading zeros.
pub open spec fn decimal(n: nat) -> Seq<char>
    decreases n,
{
    if n < 10 {
        seq![digit_char(n)]
    } else {
        decimal(n / 10).push(digit_char(n % 10))
    }
}

/// Scale `numer / denom` by powers of 1000 until it can be printed with an
/// SI prefix: first move to the largest prefix at which the number is at
/// least one, then shift in up to nine fractional digits until the number
/// is an integer. Returns the scaled numerator, the prefix index, and the
/// number of fractional digits shifted in.
pub open spec fn si_scale(numer: nat, denom: nat, prefix: nat, shift: nat) -> (nat, nat, nat)
    decreases 16 - prefix - shift,
{
    if !(prefix + 1 < 7 && shift < 9) {
        (numer, prefix, shift)
    } else if numer >= denom {
        if numer % denom == 0 {
            (numer, prefix, shift)
        } else {
            si_scale(numer * 1000, denom, prefix, shift + 3)
        }
    } else {
        si_scale(numer * 1000, denom, prefix + 1, shift)
    }
}

/// `numer / denom` rounded to the nearest integer, half-way cases up.
pub open spec fn round_ratio(numer: nat, denom: nat) -> nat {
    (2 * numer + denom) / (2 * denom)
}

/// The physical part of a time written with an SI prefix, such as `100ms`.
pub open spec fn si_string(numer: nat, denom: nat) -> Seq<char> {
    if numer == 0 {
        "0s"@
    } else {
        let (scaled, prefix, shift) = si_scale(numer, denom, 0, 0);
        let digits = decimal(round_ratio(scaled, denom));
        if shift > 0 {
            digits.subrange(0, 3) + "."@ + digits.subrange(3, digits.len() as int) + si_prefix(prefix) + "s"@
        } else {
            digits + si_prefix(prefix) + "s"@
        }
    }
}

/// A time written as in assembly, such as `1ns 2d 3e`.
pub open spec fn time_string(time: Ratio, delta: nat, epsilon: nat) -> Seq<char> {
    si_string(time.numer as nat, time.denom as nat) + (if delta != 0 {
        " "@ + decimal(delta) + "d"@
    } else {
        Seq::empty()
    }) + (if epsilon != 0 {
        " "@ + decimal(epsilon) + "e"@
    } else {
        Seq::empty()
    })
}

/// Append the decimal digits of `n` to `out`.
pub fn push_decimal(out: &mut String, n: u128)
    ensures
        final(out)@ == old(out)@ + decimal(n as nat),
    decreases n,
{
    if n >= 10 {
        push_decimal(out, n / 10);
    }
    let d = n % 10;
    let c = if d == 0 {
        '0'
    } else if d == 1 {
        '1'
    } else if d == 2 {
        '2'
    } else if d == 3 {
        '3'
    } else if d == 4 {
        '4'
    } else if d == 5 {
        '5'
    } else if d == 6 {
        '6'
    } else if d == 7 {
        '7'
    } else if d == 8 {
        '8'
    } else {
        '9'
    };
    string_push(out, c);
    proof {
        if n >= 10 {
            assert(out@ =~= old(out)@ + decimal(n as nat));
        } else {
            assert(out@ =~= old(out)@ + decimal(n as nat));
        }
    }
}

/// A decimal number has at least one digit, and one more per factor of ten.
proof fn lemma_decimal_len(n: nat)
    ensures
        decimal(n).len() >= 1,
        n >= 10 ==> decimal(n).len() >= 2,
        n >= 100 ==> decimal(n).len() >= 3,
        n >= 1000 ==> decimal(n).len() >= 4,
    decreases n,
{
    if n >= 10 {
        lemma_decimal_len(n / 10);
    }
}

/// After scaling, a number that had digits shifted in is at least 1000.
proof fn lemma_si_scale(numer: nat, denom: nat, prefix: nat, shift: nat)
    requires
        denom > 0,
        shift > 0 ==> numer >= 1000 * denom,
    ensures
        si_scale(numer, denom, prefix, shift).2 > 0 ==> si_scale(numer, denom, prefix, shift).0 >= 1000 * denom,
        si_scale(numer, denom, prefix, shift).0 >= numer,
    decreases 16 - prefix - shift,
{
    if !(prefix + 1 < 7 && shift < 9) {
    } else if numer >= denom {
        if numer % denom == 0 {
        } else {
            lemma_si_scale(numer * 1000, denom, prefix, shift + 3);
        }
    } else {
        lemma_si_scale(numer * 1000, denom, prefix + 1, shift);
    }
}

/// Append the SI prefix with index `i` to `out`.
fn push_si_prefix(out: &mut String, i: u8)
    requires
        i < 7,
    ensures
        final(out)@ == old(out)@ + si_prefix(i as nat),
{
    if i == 1 {
        string_push(out, 'm');
    } else if i == 2 {
        string_push(out, 'u');
    } else if i == 3 {
        string_push(out, 'n');
    } else if i == 4 {
        string_push(out, 'p');
    } else if i == 5 {
        string_push(out, 'f');
    } else if i == 6 {
        string_push(out, 'a');
    }
    proof {
        reveal_strlit("");
        reveal_strlit("m");
        reveal_strlit("u");
        reveal_strlit("n");
        reveal_strlit("p");
        reveal_strlit("f");
        reveal_strlit("a");
        assert(out@ =~= old(out)@ + si_prefix(i as nat));
    }
}

/// Append the physical part of a time, written with an SI prefix.
pub fn write_ratio_as_si(out: &mut String, ratio: &Ratio)
    requires
        ratio.wf(),
    ensures
        final(out)@ == old(out)@ + si_string(ratio.numer as nat, ratio.denom as nat),
{
    if ratio.numer == 0 {
        string_push(out, '0');
        string_push(out, 's');
        proof {
            reveal_strlit("0s");
            assert(out@ =~= old(out)@ + si_string(ratio.numer as nat, ratio.denom as nat));
        }
        return;
    }
    let denom = ratio.denom as u128;
    let mut scaled: u128 = ratio.numer as u128;
    let mut prefix: u8 = 0;
    let mut shift: u8 = 0;
    while prefix + 1 < 7 && shift < 9
        invariant
            denom == ratio.denom,
            denom > 0,
            prefix < 7,
            shift <= 9,
            shift % 3 == 0,
            shift == 0 ==> scaled < 18446744073709551616000,
            shift == 3 ==> scaled < 18446744073709551616000000,
            shift == 6 ==> scaled < 18446744073709551616000000000,
            shift == 9 ==> scaled < 18446744073709551616000000000000,
            si_scale(scaled as nat, denom as nat, prefix as nat, shift as nat) == si_scale(
                ratio.numer as nat,
                denom as nat,
                0,
                0,
            ),
        ensures
            denom == ratio.denom,
            denom > 0,
            prefix < 7,
            shift <= 9,
            shift % 3 == 0,
            shift == 0 ==> scaled < 18446744073709551616000,
            shift == 3 ==> scaled < 18446744073709551616000000,
            shift == 6 ==> scaled < 18446744073709551616000000000,
            shift == 9 ==> scaled < 18446744073709551616000000000000,
            si_scale(ratio.numer as nat, denom as nat, 0, 0) == (scaled as nat, prefix as nat, shift as nat),
        decreases 16 - prefix - shift,
    {
        if scaled >= denom {
            if scaled % denom == 0 {
                break;
            } else {
                shift = shift + 3;
            }
        } else {
            prefix = prefix + 1;
        }
        scaled = scaled * 1000;
    }
    let ghost res = si_scale(ratio.numer as nat, denom as nat, 0, 0);
    assert(res == (scaled as nat, prefix as nat, shift as nat));
    let rounded = (2 * scaled + denom) / (2 * denom);
    let mut digits = String::new();
    push_decimal(&mut digits, rounded);
    proof {
        lemma_si_scale(ratio.numer as nat, denom as nat, 0, 0);
        lemma_decimal_len(rounded as nat);
        if shift > 0 {
            assert(rounded >= 1000) by (nonlinear_arith)
                requires
                    scaled >= 1000 * denom,
                    denom > 0,
                    rounded == (2 * scaled + denom) / (2 * denom),
            {
            }
        }
    }
    let chars = digits.as_str();
    if shift > 0 {
        let n = chars.unicode_len();
        let mut k: usize = 0;
        while k < n
            invariant
                n == digits@.len(),
                chars@ == digits@,
                k <= n,
                n >= 4,
                k <= 3 ==> out@ == old(out)@ + digits@.subrange(0, k as int),
                k > 3 ==> out@ == old(out)@ + digits@.subrange(0, 3) + "."@ + digits@.subrange(3, k as int),
            decreases n - k,
        {
            if k == 3 {
                string_push(out, '.');
            }
            string_push(out, chars.get_char(k));
            k = k + 1;
            proof {
                reveal_strlit(".");
                if k <= 3 {
                    assert(out@ =~= old(out)@ + digits@.subrange(0, k as int));
                } else {
                    assert(out@ =~= old(out)@ + digits@.subrange(0, 3) + "."@ + digits@.subrange(3, k as int));
                }
            }
        }
    } else {
        out.append(chars);
    }
    push_si_prefix(out, prefix);
    string_push(out, 's');
    proof {
        reveal_strlit("s");
        reveal_strlit(".");
        let digits_spec = decimal(round_ratio(scaled as nat, denom as nat));
        assert(digits@ == digits_spec);
        if shift > 0 {
            assert(out@ =~= old(out)@ + si_string(ratio.numer as nat, ratio.denom as nat));
        } else {
            assert(out@ =~= old(out)@ + si_string(ratio.numer as nat, ratio.denom as nat));
        }
    }
}

impl ConstTime {
    /// The physical time.
    pub closed spec fn spec_time(&self) -> Ratio {
        self.time
    }

    /// The delta steps.
    pub closed spec fn spec_delta(&self) -> usize {
        self.delta
    }

    /// The epsilon steps.
    pub closed spec fn spec_epsilon(&self) -> usize {
        self.epsilon
    }

    /// Create a new constant time.
    pub fn new(time: Ratio, delta: usize, epsilon: usize) -> (t: ConstTime)
        ensures
            t.spec_time() == time,
            t.spec_delta() == delta,
            t.spec_epsilon() == epsilon,
    {
        ConstTime { time, delta, epsilon }
    }

    /// The zero time.
    pub fn zero() -> (t: ConstTime)
        ensures
            t.spec_time().numer == 0,
            t.spec_time().denom == 1,
            t.spec_delta() == 0,
            t.spec_epsilon() == 0,
    {
        ConstTime { time: Ratio::from_integer(0), delta: 0, epsilon: 0 }
    }

    /// Get the physical time of the constant.
    pub fn time(&self) -> (r: &Ratio)
        ensures
            *r == self.spec_time(),
    {
        &self.time
    }

    /// Get the delta time of the constant.
    pub fn delta(&self) -> (d: usize)
        ensures
            d == self.spec_delta(),
    {
        self.delta
    }

    /// Get the epsilon time of the constant.
    pub fn epsilon(&self) -> (e: usize)
        ensures
            e == self.spec_epsilon(),
    {
        self.epsilon
    }

    /// Check whether all components of this time constant are zero.
    pub fn is_zero(&self) -> (b: bool)
        ensures
            b == (self.spec_time().numer == 0 && self.spec_delta() == 0 && self.spec_epsilon() == 0),
    {
        self.time.numer == 0 && self.delta == 0 && self.epsilon == 0
    }

    /// The type of a time constant.
    pub fn ty(&self) -> (t: Type)
        ensures
            t == TypeKind::TimeType,
    {
        time_ty()
    }

    /// The time as written in assembly, such as `1ns 2d 3e`.
    pub fn to_string(&self) -> (s: String)
        requires
            self.spec_time().wf(),
        ensures
            s@ == time_string(self.spec_time(), self.spec_delta() as nat, self.spec_epsilon() as nat),
    {
        let mut s = String::new();
        write_ratio_as_si(&mut s, &self.time);
        let ghost base = s@;
        if self.delta != 0 {
            string_push(&mut s, ' ');
            push_decimal(&mut s, self.delta as u128);
            string_push(&mut s, 'd');
        }
        let ghost mid = s@;
        if self.epsilon != 0 {
            string_push(&mut s, ' ');
            push_decimal(&mut s, self.epsilon as u128);
            string_push(&mut s, 'e');
        }
        proof {
            reveal_strlit(" ");
            reveal_strlit("d");
            reveal_strlit("e");
            assert(s@ =~= time_string(self.time, self.delta as nat, self.epsilon as nat));
        }
        s
    }
}

/// The different constants.
pub enum ConstKind {
    Int(ConstInt),
    Time(ConstTime),
}

impl ConstKind {
    /// The type of the constant.
    pub open spec fn spec_ty(&self) -> Type {
        match *self {
            ConstKind::Int(k) => TypeKind::IntType(k.spec_width()),
            ConstKind::Time(_) => TypeKind::TimeType,
        }
    }

    /// Get the type of the constant.
    pub fn ty(&self) -> (t: Type)
        ensures
            t == self.spec_ty(),
    {
        match self {
            ConstKind::Int(k) => k.ty(),
            ConstKind::Time(_) => time_ty(),
        }
    }

    /// The embedded integer. The constant must be an integer.
    pub fn unwrap_int(&self) -> (k: &ConstInt)
        requires
            *self is Int,
        ensures
            *k == self->Int_0,
    {
        match self {
            ConstKind::Int(k) => k,
            _ => { proof { assert(false); } unreached() },
        }
    }

    /// The embedded time. The constant must be a time.
    pub fn as_time(&self) -> (k: &ConstTime)
        requires
            *self is Time,
        ensures
            *k == self->Time_0,
    {
        match self {
            ConstKind::Time(k) => k,
            _ => { proof { assert(false); } unreached() },
        }
    }
}

/// Create a new integer constant.
pub fn const_int(width: usize, value: num::BigInt) -> (c: Arc<ConstKind>)
    ensures
        *c is Int,
        c->Int_0.spec_width() == width,
{
    Arc::new(ConstKind::Int(ConstInt::new(width, value)))
}

/// Create a new time constant.
pub fn const_time(time: Ratio, delta: usize, epsilon: usize) -> (c: Arc<ConstKind>)
    ensures
        *c is Time,
        c->Time_0.spec_time() == time,
        c->Time_0.spec_delta() == delta,
        c->Time_0.spec_epsilon() == epsilon,
{
    Arc::new(ConstKind::Time(ConstTime::new(time, delta, epsilon)))
}

/// The type of a value that carries its type, that is a constant or an
/// aggregate.
pub open spec fn inline_value_ty(v: ValueRef) -> Type {
    match v {
        ValueRef::Const(k) => k.spec_ty(),
        ValueRef::Aggregate(a) => a.spec_ty(),
        _ => TypeKind::VoidType,
    }
}

/// Create a new array constant.
pub fn const_array(element_ty: Type, elements: Vec<ValueRef>) -> (v: ValueRef)
    ensures
        v is Aggregate,
        *v->Aggregate_0 is Array,
        v->Aggregate_0->Array_0.spec_ty() == TypeKind::ArrayType(elements@.len() as usize, Box::new(element_ty)),
        v->Aggregate_0->Array_0.spec_elements() == elements@,
{
    let ty = array_ty(elements.len(), element_ty);
    ValueRef::Aggregate(Arc::new(AggregateKind::Array(ArrayAggregate::new(ty, elements))))
}

/// Create a new array constant where each element has the same value.
pub fn const_uniform_array(length: usize, element_value: ValueRef) -> (v: ValueRef)
    requires
        element_value is Const || element_value is Aggregate,
    ensures
        v is Aggregate,
        *v->Aggregate_0 is Array,
        v->Aggregate_0->Array_0.spec_ty() == TypeKind::ArrayType(length, Box::new(inline_value_ty(element_value))),
        v->Aggregate_0->Array_0.spec_elements() == Seq::new(length as nat, |i: int| element_value),
{
    let elem_ty = match &element_value {
        ValueRef::Const(k) => k.ty(),
        ValueRef::Aggregate(a) => a.ty(),
        _ => { proof { assert(false); } unreached() },
    };
    let ty = array_ty(length, elem_ty);
    let mut elements: Vec<ValueRef> = Vec::new();
    let mut k: usize = 0;
    while k < length
        invariant
            k <= length,
            elements@ == Seq::new(k as nat, |i: int| element_value),
        decreases length - k,
    {
        elements.push(element_value.duplicate());
        k = k + 1;
        assert(elements@ =~= Seq::new(k as nat, |i: int| element_value));
    }
    ValueRef::Aggregate(Arc::new(AggregateKind::Array(ArrayAggregate::new(ty, elements))))
}

/// Create a new struct constant.
pub fn const_struct(fields: Vec<ValueRef>) -> (v: ValueRef)
    requires
        forall|i: int| 0 <= i < fields@.len() ==> (#[trigger] fields@[i] is Const || fields@[i] is Aggregate),
    ensures
        v is Aggregate,
        *v->Aggregate_0 is Struct,
        v->Aggregate_0->Struct_0.spec_ty() is StructType,
        v->Aggregate_0->Struct_0.spec_ty()->StructType_0.seq() == fields@.map_values(|f: ValueRef| inline_value_ty(f)),
        v->Aggregate_0->Struct_0.spec_fields() == fields@,
{
    let mut tys: Vec<Type> = Vec::new();
    let mut k: usize = 0;
    while k < fields.len()
        invariant
            k <= fields@.len(),
            forall|i: int| 0 <= i < fields@.len() ==> (#[trigger] fields@[i] is Const || fields@[i] is Aggregate),
            tys@ == fields@.subrange(0, k as int).map_values(|f: ValueRef| inline_value_ty(f)),
        decreases fields@.len() - k,
    {
        let t = match &fields[k] {
            ValueRef::Const(c) => c.ty(),
            ValueRef::Aggregate(a) => a.ty(),
            _ => { proof { assert(false); } unreached() },
        };
        tys.push(t);
        k = k + 1;
        assert(tys@ =~= fields@.subrange(0, k as int).map_values(|f: ValueRef| inline_value_ty(f)));
    }
    assert(fields@.subrange(0, k as int) =~= fields@);
    let ty = struct_ty(tys);
    ValueRef::Aggregate(Arc::new(AggregateKind::Struct(StructAggregate::new(ty, fields))))
}

} // verus!
