//! The textual form of LLHD IR: types, unit names, signatures, and
//! declarations as they appear in assembly.

pub mod irwriter;
pub mod names;
pub mod reader;
pub mod text;
pub mod writer;

use crate::assembly::text::{module_named, module_text, module_writable, UnitNames};
use crate::assembly::writer::Writer;
use crate::ir::keys::Arg;
use crate::ir::module::Module;
use crate::ir::sig::{Signature, SignatureView};
use crate::ir::unit::UnitName;
use crate::konst::{decimal, push_decimal, string_push};
use crate::ty::{TypeKind, TypeList};
use vstd::prelude::*;
use vstd::string::StrSliceExecFns;

verus! {

/// The assembly text of a type.
pub open spec fn type_text(t: TypeKind) -> Seq<char>
    decreases t,
{
    match t {
        TypeKind::VoidType => "void"@,
        TypeKind::TimeType => "time"@,
        TypeKind::IntType(w) => "i"@ + decimal(w as nat),
        TypeKind::EnumType(n) => "n"@ + decimal(n as nat),
        TypeKind::PointerType(inner) => type_text(*inner) + "*"@,
        TypeKind::SignalType(inner) => type_text(*inner) + "$"@,
        TypeKind::ArrayType(n, elem) => "["@ + decimal(n as nat) + " x "@ + type_text(*elem) + "]"@,
        TypeKind::StructType(fields) => "{"@ + list_text(fields, true) + "}"@,
        TypeKind::FuncType(args, ret) => "("@ + list_text(args, true) + ") "@ + type_text(*ret),
        TypeKind::EntityType(ins, outs) => "("@ + list_text(ins, true) + ") -> ("@ + list_text(outs, true) + ")"@,
    }
}

/// The assembly text of a list of types, separated by commas; `first` is
/// set when no type precedes the list.
pub open spec fn list_text(l: TypeList, first: bool) -> Seq<char>
    decreases l,
{
    match l {
        TypeList::Nil => Seq::empty(),
        TypeList::Cons(head, tail) => (if first {
            Seq::empty()
        } else {
            ", "@
        }) + type_text(*head) + list_text(*tail, false),
    }
}

/// The assembly text of a unit name.
pub open spec fn unit_name_text(n: UnitName) -> Seq<char> {
    match n {
        UnitName::Anonymous(id) => "%"@ + decimal(id as nat),
        UnitName::Local(s) => "%"@ + s@,
        UnitName::Global(s) => "@"@ + s@,
    }
}

/// The types of the given arguments of a signature, separated by commas.
pub open spec fn arg_types_text(s: SignatureView, args: Seq<Arg>) -> Seq<char>
    decreases args.len(),
{
    if args.len() == 0 {
        Seq::empty()
    } else {
        arg_types_text(s, args.drop_last()) + (if args.len() == 1 {
            Seq::empty()
        } else {
            ", "@
        }) + type_text(s.args[args.last().0 as int].ty)
    }
}

/// The assembly text of a signature: the input types in parentheses, then
/// the output types if there are any, then the return type if there is one.
pub open spec fn sig_text(s: SignatureView) -> Seq<char> {
    "("@ + arg_types_text(s, s.inp) + (if s.oup.len() > 0 {
        ") -> ("@ + arg_types_text(s, s.oup)
    } else {
        Seq::empty()
    }) + ")"@ + match s.retty {
        Some(t) => " "@ + type_text(t),
        None => Seq::empty(),
    }
}

/// The assembly text of a declaration of an external unit.
pub open spec fn declaration_text(name: UnitName, sig: SignatureView) -> Seq<char> {
    "declare "@ + unit_name_text(name) + " "@ + sig_text(sig) + "\n"@
}

/// Append a string literal.
pub(crate) fn push_str(out: &mut String, s: &str)
    ensures
        final(out)@ == old(out)@ + s@,
{
    let n = s.unicode_len();
    let ghost start = out@;
    let mut i: usize = 0;
    while i < n
        invariant
            n == s@.len(),
            i <= n,
            out@ == start + s@.subrange(0, i as int),
        decreases n - i,
    {
        let c = s.get_char(i);
        string_push(out, c);
        i = i + 1;
        proof {
            assert(out@ =~= start + s@.subrange(0, i as int));
        }
    }
    proof {
        assert(s@.subrange(0, n as int) =~= s@);
    }
}

/// Append the assembly text of a type.
pub fn write_type(out: &mut String, t: &TypeKind)
    ensures
        final(out)@ == old(out)@ + type_text(*t),
    decreases t,
{
    let ghost start = out@;
    match t {
        TypeKind::VoidType => push_str(out, "void"),
        TypeKind::TimeType => push_str(out, "time"),
        TypeKind::IntType(w) => {
            push_str(out, "i");
            push_decimal(out, *w as u128);
        },
        TypeKind::EnumType(n) => {
            push_str(out, "n");
            push_decimal(out, *n as u128);
        },
        TypeKind::PointerType(inner) => {
            write_type(out, inner);
            push_str(out, "*");
        },
        TypeKind::SignalType(inner) => {
            write_type(out, inner);
            push_str(out, "$");
        },
        TypeKind::ArrayType(n, elem) => {
            push_str(out, "[");
            push_decimal(out, *n as u128);
            push_str(out, " x ");
            write_type(out, elem);
            push_str(out, "]");
        },
        TypeKind::StructType(fields) => {
            push_str(out, "{");
            write_type_list(out, fields, true);
            push_str(out, "}");
        },
        TypeKind::FuncType(args, ret) => {
            push_str(out, "(");
            write_type_list(out, args, true);
            push_str(out, ") ");
            write_type(out, ret);
        },
        TypeKind::EntityType(ins, outs) => {
            push_str(out, "(");
            write_type_list(out, ins, true);
            push_str(out, ") -> (");
            write_type_list(out, outs, true);
            push_str(out, ")");
        },
    }
    proof {
        assert(out@ =~= start + type_text(*t));
    }
}

/// Append the assembly text of a list of types.
pub fn write_type_list(out: &mut String, l: &TypeList, first: bool)
    ensures
        final(out)@ == old(out)@ + list_text(*l, first),
    decreases l,
{
    let ghost start = out@;
    match l {
        TypeList::Nil => {},
        TypeList::Cons(head, tail) => {
            if !first {
                push_str(out, ", ");
            }
            write_type(out, head);
            write_type_list(out, tail, false);
        },
    }
    proof {
        assert(out@ =~= start + list_text(*l, first));
    }
}

/// The assembly text of a type.
pub fn type_string(t: &TypeKind) -> (s: String)
    ensures
        s@ == type_text(*t),
{
    let mut s = String::new();
    write_type(&mut s, t);
    proof {
        assert(s@ =~= type_text(*t));
    }
    s
}

/// Append the assembly text of a unit name.
pub fn write_unit_name(out: &mut String, n: &UnitName)
    ensures
        final(out)@ == old(out)@ + unit_name_text(*n),
{
    let ghost start = out@;
    match n {
        UnitName::Anonymous(id) => {
            push_str(out, "%");
            push_decimal(out, *id as u128);
        },
        UnitName::Local(s) => {
            push_str(out, "%");
            push_str(out, s.as_str());
        },
        UnitName::Global(s) => {
            push_str(out, "@");
            push_str(out, s.as_str());
        },
    }
    proof {
        assert(out@ =~= start + unit_name_text(*n));
    }
}

/// Append the types of the given arguments of a signature, separated by
/// commas.
fn write_arg_types(out: &mut String, sig: &Signature, args: &Vec<Arg>)
    requires
        forall|k: int| 0 <= k < args@.len() ==> sig@.has_arg(#[trigger] args@[k]),
    ensures
        final(out)@ == old(out)@ + arg_types_text(sig@, args@),
{
    let ghost start = out@;
    let mut i: usize = 0;
    while i < args.len()
        invariant
            forall|k: int| 0 <= k < args@.len() ==> sig@.has_arg(#[trigger] args@[k]),
            i <= args@.len(),
            out@ == start + arg_types_text(sig@, args@.subrange(0, i as int)),
        decreases args@.len() - i,
    {
        let ghost before = out@;
        if i > 0 {
            push_str(out, ", ");
        }
        assert(sig@.has_arg(args@[i as int]));
        let t = sig.arg_type(args[i]);
        write_type(out, &t);
        proof {
            let s1 = args@.subrange(0, i as int + 1);
            assert(s1.drop_last() =~= args@.subrange(0, i as int));
            assert(s1.last() == args@[i as int]);
            assert(out@ =~= start + arg_types_text(sig@, s1));
        }
        i = i + 1;
    }
    proof {
        assert(args@.subrange(0, args@.len() as int) =~= args@);
    }
}

/// Append the assembly text of a signature.
pub fn write_signature(out: &mut String, sig: &Signature)
    requires
        sig@.wf(),
    ensures
        final(out)@ == old(out)@ + sig_text(sig@),
{
    let ghost start = out@;
    let inputs = sig.inputs();
    let outputs = sig.outputs();
    push_str(out, "(");
    write_arg_types(out, sig, &inputs);
    if sig.has_outputs() {
        push_str(out, ") -> (");
        write_arg_types(out, sig, &outputs);
    }
    push_str(out, ")");
    if sig.has_return_type() {
        let t = sig.return_type();
        push_str(out, " ");
        write_type(out, &t);
    }
    proof {
        assert(out@ =~= start + sig_text(sig@));
    }
}

/// The assembly text of a signature.
pub fn signature_string(sig: &Signature) -> (s: String)
    requires
        sig@.wf(),
    ensures
        s@ == sig_text(sig@),
{
    let mut s = String::new();
    write_signature(&mut s, sig);
    proof {
        assert(s@ =~= sig_text(sig@));
    }
    s
}

/// Append the assembly text of a declaration of an external unit.
pub fn write_declaration_text(out: &mut String, sig: &Signature, name: &UnitName)
    requires
        sig@.wf(),
    ensures
        final(out)@ == old(out)@ + declaration_text(*name, sig@),
{
    let ghost start = out@;
    push_str(out, "declare ");
    write_unit_name(out, name);
    push_str(out, " ");
    write_signature(out, sig);
    push_str(out, "\n");
    proof {
        assert(out@ =~= start + declaration_text(*name, sig@));
    }
}

/// Emit assembly for a module as a string: its units separated by blank
/// lines, then a blank line if both are present, then its declarations,
/// with unique names picked for the values and blocks of each unit.
pub fn write_module_string(module: &Module) -> (s: String)
    requires
        module_writable(*module),
    ensures
        exists|ns: Seq<UnitNames>| module_named(*module, ns) && s@ == #[trigger] module_text(*module, ns),
{
    let mut w = Writer::new();
    w.write_module(module);
    w.finish()
}

/// The characters that names may hold unescaped.
pub open spec fn acceptable_name_char(c: char) -> bool {
    ('a' <= c && c <= 'z') || ('A' <= c && c <= 'Z') || ('0' <= c && c <= '9') || c == '_' || c == '.'
}

/// The lowercase hexadecimal digit of `d`.
pub open spec fn hex_digit(d: nat) -> char {
    if d < 10 {
        ((d + 48) as u8) as char
    } else {
        ((d + 87) as u8) as char
    }
}

/// The lowercase hexadecimal text of `n`, without leading zeros.
pub open spec fn hex(n: nat) -> Seq<char>
    decreases n,
{
    if n < 16 {
        seq![hex_digit(n)]
    } else {
        hex(n / 16).push(hex_digit(n % 16))
    }
}

/// A name with every character that names may not hold unescaped replaced
/// by a backslash and its code point in hexadecimal.
pub open spec fn escaped(s: Seq<char>) -> Seq<char>
    decreases s.len(),
{
    if s.len() == 0 {
        Seq::empty()
    } else {
        escaped(s.drop_last()) + if acceptable_name_char(s.last()) {
            seq![s.last()]
        } else {
            seq!['\\'] + hex(s.last() as nat)
        }
    }
}

/// Check whether a character may appear unescaped in a name.
pub fn is_acceptable_name_char(c: char) -> (b: bool)
    ensures
        b == acceptable_name_char(c),
{
    c >= 'a' && c <= 'z' || c >= 'A' && c <= 'Z' || c >= '0' && c <= '9' || c == '_' || c == '.'
}

/// Append the lowercase hexadecimal text of `n`.
fn push_hex(out: &mut String, n: u32)
    ensures
        final(out)@ == old(out)@ + hex(n as nat),
    decreases n,
{
    if n >= 16 {
        push_hex(out, n / 16);
    }
    let d = n % 16;
    let c: char = if d < 10 {
        ((d + 48) as u8) as char
    } else {
        ((d + 87) as u8) as char
    };
    string_push(out, c);
}

/// Escape the characters of a name that names may not hold unescaped.
pub fn escape_name(input: &str) -> (s: String)
    ensures
        s@ == escaped(input@),
{
    let n = input.unicode_len();
    let mut s = String::new();
    let mut i: usize = 0;
    while i < n
        invariant
            n == input@.len(),
            i <= n,
            s@ == escaped(input@.subrange(0, i as int)),
        decreases n - i,
    {
        let c = input.get_char(i);
        if is_acceptable_name_char(c) {
            string_push(&mut s, c);
        } else {
            string_push(&mut s, '\\');
            push_hex(&mut s, c as u32);
        }
        proof {
            let t = input@.subrange(0, i as int + 1);
            assert(t.drop_last() =~= input@.subrange(0, i as int));
            assert(t.last() == c);
        }
        i = i + 1;
    }
    proof {
        assert(input@.subrange(0, n as int) =~= input@);
    }
    s
}

} // verus!
