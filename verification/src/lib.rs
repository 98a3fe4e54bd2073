//! The Low Level Hardware Description language. This library provides tools to
//! create, modify, store, and load LLHD graphs.

pub mod aggregate;
pub mod analysis;
pub mod assembly;
pub mod argument;
pub mod block;
pub mod inst;
pub mod ir;
pub mod konst;
pub mod liberty;
pub mod mlir;
pub mod sim;
pub mod ty;
pub mod value;

pub use crate::ty::{
    array_ty, entity_ty, enum_ty, func_ty, int_ty, pointer_ty, signal_ty, struct_ty, time_ty,
    void_ty, Type, TypeKind, TypeList,
};
