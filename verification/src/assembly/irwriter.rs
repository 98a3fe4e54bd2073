//! Emitting LLHD IR assembly for units built on the unit interface.

use crate::assembly::{declaration_text, write_declaration_text};
use crate::ir::sig::Signature;
use crate::ir::unit::UnitName;
use vstd::prelude::*;

verus! {

/// Collects emitted LLHD IR assembly text.
pub struct Writer {
    text: String,
}

impl Writer {
    /// The text emitted so far.
    pub closed spec fn spec_text(&self) -> Seq<char> {
        self.text@
    }

    /// Create a new assembly writer that has emitted nothing yet.
    pub fn new() -> (w: Self)
        ensures
            w.spec_text() == Seq::<char>::empty(),
    {
        Writer { text: String::new() }
    }

    /// Emit a declaration of an external unit.
    pub fn write_declaration(&mut self, sig: &Signature, name: &UnitName)
        requires
            sig@.wf(),
        ensures
            final(self).spec_text() == old(self).spec_text() + declaration_text(*name, sig@),
    {
        write_declaration_text(&mut self.text, sig, name);
    }

    /// The text emitted so far.
    pub fn text(&self) -> (s: &str)
        ensures
            s@ == self.spec_text(),
    {
        self.text.as_str()
    }

    /// Finish emitting and hand out the text.
    pub fn finish(self) -> (s: String)
        ensures
            s@ == self.spec_text(),
    {
        self.text
    }
}

} // verus!
