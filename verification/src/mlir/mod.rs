//! Facilities to emit units as CIRCT IR.

pub mod writer;
