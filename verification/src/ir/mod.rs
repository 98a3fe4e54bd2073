//! Representation of LLHD functions, processes, and entitites.

pub mod inst;
pub mod keys;
pub mod layout;
pub mod module;
pub mod order;
pub mod sig;
pub mod unit;
