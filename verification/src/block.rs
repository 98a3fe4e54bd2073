//! Basic blocks in a function or process body.

use crate::inst::InstPosition;
use crate::value::{BlockRef, InstRef, ValueId};
use vstd::prelude::*;

verus! {

/// A basic block.
pub struct Block {
    id: BlockRef,
    name: Option<String>,
    insts: Vec<InstRef>,
}

/// The index of the first occurrence of `x` in `s`, where there is one.
pub open spec fn first_pos(s: Seq<InstRef>, x: InstRef) -> int {
    match s.index_of_first(x) {
        Some(k) => k,
        Option::None => 0,
    }
}

/// The position in `insts` that `pos` names.
pub open spec fn insert_index(id: BlockRef, insts: Seq<InstRef>, pos: InstPosition) -> int {
    match pos {
        InstPosition::Begin => 0,
        InstPosition::End => insts.len() as int,
        InstPosition::Before(i) => first_pos(insts, i),
        InstPosition::After(i) => first_pos(insts, i) + 1,
        InstPosition::BlockBegin(_) => 0,
        InstPosition::BlockEnd(_) => insts.len() as int,
    }
}

/// `pos` names a position in a block with reference `id` and instructions
/// `insts`.
pub open spec fn position_valid(id: BlockRef, insts: Seq<InstRef>, pos: InstPosition) -> bool {
    match pos {
        InstPosition::Before(i) => insts.contains(i),
        InstPosition::After(i) => insts.contains(i),
        InstPosition::BlockBegin(b) => b == id,
        InstPosition::BlockEnd(b) => b == id,
        _ => true,
    }
}

impl Block {
    /// The reference of the block.
    pub closed spec fn spec_id(&self) -> BlockRef {
        self.id
    }

    /// The instructions of the block, in order.
    pub closed spec fn spec_insts(&self) -> Seq<InstRef> {
        self.insts@
    }

    /// The name of the block.
    pub closed spec fn spec_name(&self) -> Option<String> {
        self.name
    }

    /// Create a new empty basic block with an optional name (aka label) and
    /// the id the caller allocated for it.
    pub fn new(id: ValueId, name: Option<String>) -> (b: Block)
        ensures
            b.spec_id() == BlockRef(id),
            b.spec_name() == name,
            b.spec_insts() == Seq::<InstRef>::empty(),
    {
        Block { id: BlockRef(id), name, insts: Vec::new() }
    }

    /// Obtain a reference to this block.
    pub fn as_ref(&self) -> (r: BlockRef)
        ensures
            r == self.spec_id(),
    {
        self.id
    }

    /// The references of the instructions in this block.
    pub fn inst_refs(&self) -> (s: &[InstRef])
        ensures
            s@ == self.spec_insts(),
    {
        self.insts.as_slice()
    }

    /// Insert an instruction into this block as dictated by the requested
    /// position. `Begin` and `End` are treated as synonyms to `BlockBegin`
    /// and `BlockEnd`.
    pub fn insert_inst(&mut self, inst: InstRef, pos: InstPosition)
        requires
            position_valid(old(self).spec_id(), old(self).spec_insts(), pos),
        ensures
            final(self).spec_insts() == old(self).spec_insts().insert(
                insert_index(old(self).spec_id(), old(self).spec_insts(), pos),
                inst,
            ),
            final(self).spec_id() == old(self).spec_id(),
            final(self).spec_name() == old(self).spec_name(),
    {
        let index = match pos {
            InstPosition::Begin => 0,
            InstPosition::End => self.insts.len(),
            InstPosition::Before(i) => self.inst_pos(i),
            InstPosition::After(i) => {
                let n = self.insts.len();
                let k = self.inst_pos(i);
                assert(k < n);
                k + 1
            },
            InstPosition::BlockBegin(_) => 0,
            InstPosition::BlockEnd(_) => self.insts.len(),
        };
        self.insts.insert(index, inst);
    }

    /// Detach an instruction from this block.
    pub fn detach_inst(&mut self, inst: InstRef)
        requires
            old(self).spec_insts().contains(inst),
        ensures
            final(self).spec_insts() == old(self).spec_insts().remove(first_pos(old(self).spec_insts(), inst)),
            final(self).spec_id() == old(self).spec_id(),
            final(self).spec_name() == old(self).spec_name(),
    {
        let pos = self.inst_pos(inst);
        self.insts.remove(pos);
    }

    /// The index of an instruction of the block.
    fn inst_pos(&self, inst: InstRef) -> (k: usize)
        requires
            self.insts@.contains(inst),
        ensures
            k == first_pos(self.insts@, inst),
            k < self.insts@.len(),
    {
        let mut k: usize = 0;
        while k < self.insts.len()
            invariant
                k <= self.insts@.len(),
                self.insts@.contains(inst),
                forall|j: int| 0 <= j < k ==> self.insts@[j] != inst,
            decreases self.insts@.len() - k,
        {
            if self.insts[k] == inst {
                proof {
                    lemma_first_index(self.insts@, inst, k as int);
                }
                return k;
            }
            k = k + 1;
        }
        proof {
            let j = choose|j: int| 0 <= j < self.insts@.len() && self.insts@[j] == inst;
            assert(self.insts@[j] != inst);
        }
        0
    }
}

/// The position of the first occurrence is the index.
proof fn lemma_first_index(s: Seq<InstRef>, x: InstRef, k: int)
    requires
        0 <= k < s.len(),
        s[k] == x,
        forall|j: int| 0 <= j < k ==> s[j] != x,
    ensures
        first_pos(s, x) == k,
{
    s.index_of_first_ensures(x);
    let f = s.index_of_first(x).unwrap();
    if f < k {
        assert(s[f] != x);
    } else if k < f {
        assert(s[k] != x);
    }
}

/// A relative position of a block. Used to insert or move a block to a
/// position relative to the surrounding unit or another block.
#[derive(Clone, Copy, PartialEq, Eq, Structural, Debug)]
pub enum BlockPosition {
    /// The very first position in the function/process.
    Begin,
    /// The very last position in the function/process.
    End,
    /// The position just before another block.
    Before(BlockRef),
    /// The position just after another block.
    After(BlockRef),
}

} // verus!
