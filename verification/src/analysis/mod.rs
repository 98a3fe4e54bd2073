//! Analysis passes on the IR.

pub mod domtree;
pub mod preds;
pub mod trg;
