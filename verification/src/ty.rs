//! Types of LLHD values.
//!
//! A type is a tree: scalars at the leaves, and pointers, signals, arrays,
//! structs, functions, and entities as inner nodes. Lists of types (struct
//! fields, function arguments, entity ports) are kept as `TypeList`s.

use vstd::prelude::*;

verus! {

/// The different kinds of types.
pub enum TypeKind {
    /// The `void` type.
    VoidType,
    /// The `time` type.
    TimeType,
    /// Integer types like `i32`.
    IntType(usize),
    /// Enumerated types like `n42`.
    EnumType(usize),
    /// Pointer types like `i32*`.
    PointerType(Box<TypeKind>),
    /// Signal types like `i32$`.
    SignalType(Box<TypeKind>),
    /// Array types like `[4 x i32]`.
    ArrayType(usize, Box<TypeKind>),
    /// Struct types like `{i8, i32}`.
    StructType(TypeList),
    /// Function types like `(i32) void`.
    FuncType(TypeList, Box<TypeKind>),
    /// Entity types like `(i8, i8; i32)`.
    EntityType(TypeList, TypeList),
}

/// An ordered list of types.
pub enum TypeList {
    /// The empty list.
    Nil,
    /// A type followed by the rest of the list.
    Cons(Box<TypeKind>, Box<TypeList>),
}

/// An LLHD type.
pub type Type = TypeKind;

impl TypeList {
    /// The types in the list, in order.
    pub open spec fn seq(self) -> Seq<TypeKind>
        decreases self,
    {
        match self {
            TypeList::Nil => Seq::empty(),
            TypeList::Cons(head, tail) => seq![*head] + tail.seq(),
        }
    }

    /// The empty list.
    pub fn new() -> (l: TypeList)
        ensures
            l.seq() == Seq::<TypeKind>::empty(),
    {
        TypeList::Nil
    }

    /// Build a list from a vector of types, keeping the order.
    pub fn from_vec(tys: Vec<TypeKind>) -> (l: TypeList)
        ensures
            l.seq() == tys@,
    {
        let mut tys = tys;
        let ghost orig = tys@;
        let mut l = TypeList::Nil;
        while tys.len() > 0
            invariant
                orig == tys@ + l.seq(),
            decreases tys.len(),
        {
            let t = tys.pop().unwrap();
            let ghost rest = l.seq();
            assert(orig == tys@.push(t) + rest);
            l = TypeList::Cons(Box::new(t), Box::new(l));
            assert(l.seq() == seq![t] + rest);
            assert(tys@.push(t) + rest =~= tys@ + (seq![t] + rest));
        }
        assert(tys@ =~= Seq::<TypeKind>::empty());
        assert(orig =~= l.seq());
        l
    }

    /// The number of types in the list.
    pub fn len(&self) -> (n: usize)
        requires
            self.seq().len() <= usize::MAX,
        ensures
            n == self.seq().len(),
        decreases self,
    {
        match self {
            TypeList::Nil => 0,
            TypeList::Cons(_, tail) => 1 + tail.len(),
        }
    }

    /// The type at position `idx`.
    pub fn get(&self, idx: usize) -> (t: &TypeKind)
        requires
            idx < self.seq().len(),
        ensures
            *t == self.seq()[idx as int],
        decreases self,
    {
        match self {
            TypeList::Nil => { proof { assert(false); } unreached() },
            TypeList::Cons(head, tail) => {
                if idx == 0 {
                    head
                } else {
                    tail.get(idx - 1)
                }
            },
        }
    }

    /// A copy of this list.
    pub fn duplicate(&self) -> (l: TypeList)
        ensures
            l == *self,
        decreases self,
    {
        match self {
            TypeList::Nil => TypeList::Nil,
            TypeList::Cons(head, tail) => TypeList::Cons(
                Box::new(head.duplicate()),
                Box::new(tail.duplicate()),
            ),
        }
    }

    /// Check whether two lists hold the same types.
    pub fn same_as(&self, other: &TypeList) -> (b: bool)
        ensures
            b == (*self == *other),
        decreases self,
    {
        match (self, other) {
            (TypeList::Nil, TypeList::Nil) => true,
            (TypeList::Cons(h0, t0), TypeList::Cons(h1, t1)) => h0.same_as(h1) && t0.same_as(t1),
            _ => false,
        }
    }
}

impl TypeKind {
    /// A copy of this type.
    pub fn duplicate(&self) -> (t: TypeKind)
        ensures
            t == *self,
        decreases self,
    {
        match self {
            TypeKind::VoidType => TypeKind::VoidType,
            TypeKind::TimeType => TypeKind::TimeType,
            TypeKind::IntType(w) => TypeKind::IntType(*w),
            TypeKind::EnumType(n) => TypeKind::EnumType(*n),
            TypeKind::PointerType(t) => TypeKind::PointerType(Box::new(t.duplicate())),
            TypeKind::SignalType(t) => TypeKind::SignalType(Box::new(t.duplicate())),
            TypeKind::ArrayType(n, t) => TypeKind::ArrayType(*n, Box::new(t.duplicate())),
            TypeKind::StructType(l) => TypeKind::StructType(l.duplicate()),
            TypeKind::FuncType(a, r) => TypeKind::FuncType(a.duplicate(), Box::new(r.duplicate())),
            TypeKind::EntityType(i, o) => TypeKind::EntityType(i.duplicate(), o.duplicate()),
        }
    }

    /// Check whether two types are the same.
    pub fn same_as(&self, other: &TypeKind) -> (b: bool)
        ensures
            b == (*self == *other),
        decreases self,
    {
        match (self, other) {
            (TypeKind::VoidType, TypeKind::VoidType) => true,
            (TypeKind::TimeType, TypeKind::TimeType) => true,
            (TypeKind::IntType(a), TypeKind::IntType(b)) => *a == *b,
            (TypeKind::EnumType(a), TypeKind::EnumType(b)) => *a == *b,
            (TypeKind::PointerType(a), TypeKind::PointerType(b)) => a.same_as(b),
            (TypeKind::SignalType(a), TypeKind::SignalType(b)) => a.same_as(b),
            (TypeKind::ArrayType(n, a), TypeKind::ArrayType(m, b)) => *n == *m && a.same_as(b),
            (TypeKind::StructType(a), TypeKind::StructType(b)) => a.same_as(b),
            (TypeKind::FuncType(a, r), TypeKind::FuncType(b, s)) => a.same_as(b) && r.same_as(s),
            (TypeKind::EntityType(a, c), TypeKind::EntityType(b, d)) => a.same_as(b) && c.same_as(d),
            _ => false,
        }
    }

    /// Check if this is the void type.
    pub fn is_void(&self) -> (b: bool)
        ensures
            b == (*self is VoidType),
    {
        matches!(self, TypeKind::VoidType)
    }

    /// Check if this is the time type.
    pub fn is_time(&self) -> (b: bool)
        ensures
            b == (*self is TimeType),
    {
        matches!(self, TypeKind::TimeType)
    }

    /// Check if this is an integer type.
    pub fn is_int(&self) -> (b: bool)
        ensures
            b == (*self is IntType),
    {
        matches!(self, TypeKind::IntType(_))
    }

    /// Check if this is an enum type.
    pub fn is_enum(&self) -> (b: bool)
        ensures
            b == (*self is EnumType),
    {
        matches!(self, TypeKind::EnumType(_))
    }

    /// Check if this is a pointer type.
    pub fn is_pointer(&self) -> (b: bool)
        ensures
            b == (*self is PointerType),
    {
        matches!(self, TypeKind::PointerType(_))
    }

    /// Check if this is a signal type.
    pub fn is_signal(&self) -> (b: bool)
        ensures
            b == (*self is SignalType),
    {
        matches!(self, TypeKind::SignalType(_))
    }

    /// Check if this is an array type.
    pub fn is_array(&self) -> (b: bool)
        ensures
            b == (*self is ArrayType),
    {
        matches!(self, TypeKind::ArrayType(..))
    }

    /// Check if this is a struct type.
    pub fn is_struct(&self) -> (b: bool)
        ensures
            b == (*self is StructType),
    {
        matches!(self, TypeKind::StructType(_))
    }

    /// Check if this is a function type.
    pub fn is_func(&self) -> (b: bool)
        ensures
            b == (*self is FuncType),
    {
        matches!(self, TypeKind::FuncType(..))
    }

    /// Check if this is an entity type.
    pub fn is_entity(&self) -> (b: bool)
        ensures
            b == (*self is EntityType),
    {
        matches!(self, TypeKind::EntityType(..))
    }

    /// The bit width of an integer type.
    pub fn unwrap_int(&self) -> (w: usize)
        requires
            *self is IntType,
        ensures
            w == self->IntType_0,
    {
        match self {
            TypeKind::IntType(w) => *w,
            _ => { proof { assert(false); } unreached() },
        }
    }

    /// The number of states of an enum type.
    pub fn unwrap_enum(&self) -> (n: usize)
        requires
            *self is EnumType,
        ensures
            n == self->EnumType_0,
    {
        match self {
            TypeKind::EnumType(n) => *n,
            _ => { proof { assert(false); } unreached() },
        }
    }

    /// The pointee type of a pointer type.
    pub fn unwrap_pointer(&self) -> (t: &TypeKind)
        requires
            *self is PointerType,
        ensures
            *t == *self->PointerType_0,
    {
        match self {
            TypeKind::PointerType(t) => t,
            _ => { proof { assert(false); } unreached() },
        }
    }

    /// The carried type of a signal type.
    pub fn unwrap_signal(&self) -> (t: &TypeKind)
        requires
            *self is SignalType,
        ensures
            *t == *self->SignalType_0,
    {
        match self {
            TypeKind::SignalType(t) => t,
            _ => { proof { assert(false); } unreached() },
        }
    }

    /// The length and element type of an array type.
    pub fn unwrap_array(&self) -> (r: (usize, &TypeKind))
        requires
            *self is ArrayType,
        ensures
            r.0 == self->ArrayType_0,
            *r.1 == *self->ArrayType_1,
    {
        match self {
            TypeKind::ArrayType(n, t) => (*n, t),
            _ => { proof { assert(false); } unreached() },
        }
    }

    /// The field types of a struct type.
    pub fn unwrap_struct(&self) -> (l: &TypeList)
        requires
            *self is StructType,
        ensures
            *l == self->StructType_0,
    {
        match self {
            TypeKind::StructType(l) => l,
            _ => { proof { assert(false); } unreached() },
        }
    }

    /// The argument and return types of a function type.
    pub fn unwrap_func(&self) -> (r: (&TypeList, &TypeKind))
        requires
            *self is FuncType,
        ensures
            *r.0 == self->FuncType_0,
            *r.1 == *self->FuncType_1,
    {
        match self {
            TypeKind::FuncType(a, t) => (a, t),
            _ => { proof { assert(false); } unreached() },
        }
    }

    /// The input and output types of an entity type.
    pub fn unwrap_entity(&self) -> (r: (&TypeList, &TypeList))
        requires
            *self is EntityType,
        ensures
            *r.0 == self->EntityType_0,
            *r.1 == self->EntityType_1,
    {
        match self {
            TypeKind::EntityType(i, o) => (i, o),
            _ => { proof { assert(false); } unreached() },
        }
    }
}

/// Create a void type.
pub fn void_ty() -> (t: Type)
    ensures
        t == TypeKind::VoidType,
{
    TypeKind::VoidType
}

/// Create a time type.
pub fn time_ty() -> (t: Type)
    ensures
        t == TypeKind::TimeType,
{
    TypeKind::TimeType
}

/// Create an integer type of the requested width.
pub fn int_ty(width: usize) -> (t: Type)
    ensures
        t == TypeKind::IntType(width),
{
    TypeKind::IntType(width)
}

/// Create an enum type with the requested number of states.
pub fn enum_ty(states: usize) -> (t: Type)
    ensures
        t == TypeKind::EnumType(states),
{
    TypeKind::EnumType(states)
}

/// Create a pointer type with the requested pointee type.
pub fn pointer_ty(ty: Type) -> (t: Type)
    ensures
        t == TypeKind::PointerType(Box::new(ty)),
{
    TypeKind::PointerType(Box::new(ty))
}

/// Create a signal type carrying the requested type.
pub fn signal_ty(ty: Type) -> (t: Type)
    ensures
        t == TypeKind::SignalType(Box::new(ty)),
{
    TypeKind::SignalType(Box::new(ty))
}

/// Create an array type of the requested length and element type.
pub fn array_ty(size: usize, ty: Type) -> (t: Type)
    ensures
        t == TypeKind::ArrayType(size, Box::new(ty)),
{
    TypeKind::ArrayType(size, Box::new(ty))
}

/// Create a struct type with the requested field types.
pub fn struct_ty(fields: Vec<Type>) -> (t: Type)
    ensures
        t is StructType,
        t->StructType_0.seq() == fields@,
{
    TypeKind::StructType(TypeList::from_vec(fields))
}

/// Create a function type with the requested argument and return types.
pub fn func_ty(args: Vec<Type>, ret: Type) -> (t: Type)
    ensures
        t is FuncType,
        t->FuncType_0.seq() == args@,
        *t->FuncType_1 == ret,
{
    TypeKind::FuncType(TypeList::from_vec(args), Box::new(ret))
}

/// Create an entity type with the requested input and output types.
pub fn entity_ty(ins: Vec<Type>, outs: Vec<Type>) -> (t: Type)
    ensures
        t is EntityType,
        t->EntityType_0.seq() == ins@,
        t->EntityType_1.seq() == outs@,
{
    TypeKind::EntityType(TypeList::from_vec(ins), TypeList::from_vec(outs))
}

} // verus!
