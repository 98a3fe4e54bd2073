//! Instruction and BB ordering.

use crate::ir::keys::{Block, Inst};
use crate::ir::order::{first_of, last_of, next_in, prev_in, IdOrder};
use vstd::prelude::*;

verus! {

/// The blocks named by a sequence of raw ids.
pub open spec fn as_blocks(s: Seq<u32>) -> Seq<Block> {
    s.map_values(|x: u32| Block(x))
}

/// The instructions named by a sequence of raw ids.
pub open spec fn as_insts(s: Seq<u32>) -> Seq<Inst> {
    s.map_values(|x: u32| Inst(x))
}

/// Optional raw id as optional block.
pub open spec fn opt_block(x: Option<u32>) -> Option<Block> {
    match x {
        Some(x) => Some(Block(x)),
        None => None,
    }
}

/// Optional raw id as optional instruction.
pub open spec fn opt_inst(x: Option<u32>) -> Option<Inst> {
    match x {
        Some(x) => Some(Inst(x)),
        None => None,
    }
}

/// The instruction order stored for `bb` in a table of orders.
pub open spec fn seq_of(insts: Seq<IdOrder>, bb: u32) -> Seq<u32> {
    if (bb as int) < insts.len() {
        insts[bb as int]@
    } else {
        Seq::empty()
    }
}

/// The block stored for `inst` in an instruction-to-block table.
pub open spec fn home_of(map: Seq<Option<u32>>, inst: u32) -> Option<u32> {
    if (inst as int) < map.len() {
        map[inst as int]
    } else {
        None
    }
}

/// Determines the order of instructions and BBs in a `Function` or `Process`.
pub struct FunctionLayout {
    /// The BBs in layout order.
    bbs: IdOrder,
    /// The instruction order within each BB, indexed by block id.
    insts: Vec<IdOrder>,
    /// The BB that contains an instruction, indexed by instruction id.
    inst_map: Vec<Option<u32>>,
}

impl FunctionLayout {
    /// The BBs in layout order.
    pub closed spec fn block_seq(&self) -> Seq<u32> {
        self.bbs@
    }

    /// The instructions of an inserted BB, in layout order.
    pub closed spec fn inst_seq(&self, bb: u32) -> Seq<u32> {
        seq_of(self.insts@, bb)
    }

    /// The BB an instruction has been placed into, if any.
    pub closed spec fn inst_home(&self, inst: u32) -> Option<u32> {
        home_of(self.inst_map@, inst)
    }

    /// The instruction sits in the instruction order of its BB, and that BB
    /// is part of the layout.
    pub open spec fn inst_placed(&self, inst: u32) -> bool {
        &&& self.inst_home(inst) is Some
        &&& self.block_seq().contains(self.inst_home(inst)->0)
        &&& self.inst_seq(self.inst_home(inst)->0).contains(inst)
    }

    /// The layout is internally consistent.
    pub closed spec fn wf(&self) -> bool {
        &&& self.bbs.wf()
        &&& forall|k: int| 0 <= k < self.insts@.len() ==> (#[trigger] self.insts@[k]).wf()
        &&& forall|b: u32| #[trigger] self.bbs@.contains(b) ==> (b as int) < self.insts@.len()
        &&& forall|b: u32, i: u32|
            self.bbs@.contains(b) && #[trigger] seq_of(self.insts@, b).contains(i) ==> #[trigger] home_of(self.inst_map@, i)
                == Some(b)
    }

    /// Create an empty layout.
    pub fn new() -> (l: FunctionLayout)
        ensures
            l.wf(),
            l.block_seq() == Seq::<u32>::empty(),
            forall|i: u32| #[trigger] l.inst_home(i) is None,
    {
        FunctionLayout { bbs: IdOrder::new(), insts: Vec::new(), inst_map: Vec::new() }
    }

    /// All BBs in layout order.
    pub fn blocks(&self) -> (v: Vec<Block>)
        requires
            self.wf(),
        ensures
            v@ == as_blocks(self.block_seq()),
    {
        let raw = self.bbs.to_vec();
        let mut v: Vec<Block> = Vec::new();
        let mut k: usize = 0;
        while k < raw.len()
            invariant
                k <= raw@.len(),
                raw@ == self.bbs@,
                v@ == as_blocks(raw@.subrange(0, k as int)),
            decreases raw@.len() - k,
        {
            v.push(Block(raw[k]));
            k = k + 1;
            assert(v@ =~= as_blocks(raw@.subrange(0, k as int)));
        }
        assert(raw@.subrange(0, k as int) =~= raw@);
        v
    }

    /// Check if a block is inserted into the layout.
    pub fn is_block_inserted(&self, bb: Block) -> (b: bool)
        requires
            self.wf(),
        ensures
            b == self.block_seq().contains(bb.0),
    {
        self.bbs.contains(bb.0)
    }

    /// The first BB in the layout.
    pub fn first_block(&self) -> (r: Option<Block>)
        requires
            self.wf(),
        ensures
            r == opt_block(first_of(self.block_seq())),
    {
        match self.bbs.first() {
            Some(x) => Some(Block(x)),
            None => None,
        }
    }

    /// The last BB in the layout.
    pub fn last_block(&self) -> (r: Option<Block>)
        requires
            self.wf(),
        ensures
            r == opt_block(last_of(self.block_seq())),
    {
        match self.bbs.last() {
            Some(x) => Some(Block(x)),
            None => None,
        }
    }

    /// The BB preceding `bb` in the layout.
    pub fn prev_block(&self, bb: Block) -> (r: Option<Block>)
        requires
            self.wf(),
            self.block_seq().contains(bb.0),
        ensures
            r == opt_block(prev_in(self.block_seq(), self.block_seq().index_of(bb.0))),
    {
        match self.bbs.prev(bb.0) {
            Some(x) => Some(Block(x)),
            None => None,
        }
    }

    /// The BB following `bb` in the layout.
    pub fn next_block(&self, bb: Block) -> (r: Option<Block>)
        requires
            self.wf(),
            self.block_seq().contains(bb.0),
        ensures
            r == opt_block(next_in(self.block_seq(), self.block_seq().index_of(bb.0))),
    {
        match self.bbs.next(bb.0) {
            Some(x) => Some(Block(x)),
            None => None,
        }
    }

    /// Give `bb` a fresh, empty instruction order.
    fn fresh_insts(&mut self, bb: u32)
        requires
            old(self).wf(),
            !old(self).bbs@.contains(bb),
        ensures
            final(self).wf(),
            final(self).bbs == old(self).bbs,
            final(self).inst_map == old(self).inst_map,
            (bb as int) < final(self).insts@.len(),
            final(self).insts@.len() >= old(self).insts@.len(),
            final(self).insts@[bb as int]@ == Seq::<u32>::empty(),
            forall|b: u32| b != bb ==> #[trigger] seq_of(final(self).insts@, b) == seq_of(old(self).insts@, b),
    {
        while self.insts.len() <= bb as usize
            invariant
                self.wf(),
                self.bbs == old(self).bbs,
                self.inst_map == old(self).inst_map,
                self.insts@.len() >= old(self).insts@.len(),
                forall|b: u32| #[trigger] seq_of(self.insts@, b) == seq_of(old(self).insts@, b),
            decreases (bb as int) + 1 - self.insts@.len(),
        {
            let ghost before = *self;
            self.insts.push(IdOrder::new());
            assert forall|b: u32| #[trigger] seq_of(self.insts@, b) == seq_of(before.insts@, b) by {
                if (b as int) < before.insts@.len() {
                    assert(self.insts@[b as int] == before.insts@[b as int]);
                }
            }
            assert forall|k: int| 0 <= k < self.insts@.len() implies (#[trigger] self.insts@[k]).wf() by {
                if k < before.insts@.len() {
                    assert(self.insts@[k] == before.insts@[k]);
                }
            }
            assert forall|i: u32| #[trigger] home_of(self.inst_map@, i) == home_of(before.inst_map@, i) by {}
            assert forall|b: u32| #[trigger] self.bbs@.contains(b) implies (b as int) < self.insts@.len() by {
                assert(before.bbs@.contains(b));
            }
            assert forall|b: u32, i: u32| self.bbs@.contains(b) && #[trigger] seq_of(self.insts@, b).contains(i)
                implies #[trigger] home_of(self.inst_map@, i) == Some(b) by {
                assert(seq_of(before.insts@, b) == seq_of(self.insts@, b));
                assert(home_of(before.inst_map@, i) == home_of(self.inst_map@, i));
            }
        }
        let ghost before = *self;
        self.insts.set(bb as usize, IdOrder::new());
        assert forall|b: u32| b != bb implies #[trigger] seq_of(self.insts@, b) == seq_of(before.insts@, b) by {}
        assert forall|k: int| 0 <= k < self.insts@.len() implies (#[trigger] self.insts@[k]).wf() by {
            if k != bb as int {
                assert(self.insts@[k] == before.insts@[k]);
            }
        }
        assert forall|b: u32, i: u32| self.bbs@.contains(b) && #[trigger] seq_of(self.insts@, b).contains(i)
            implies #[trigger] home_of(self.inst_map@, i) == Some(b) by {
            assert(b != bb);
            assert(seq_of(before.insts@, b) == seq_of(self.insts@, b));
            assert(home_of(before.inst_map@, i) == home_of(self.inst_map@, i));
        }
        assert forall|b: u32| #[trigger] self.bbs@.contains(b) implies (b as int) < self.insts@.len() by {
            assert(before.bbs@.contains(b));
        }
    }

    /// Append a BB to the end of the layout.
    pub fn append_block(&mut self, bb: Block)
        requires
            old(self).wf(),
            !old(self).block_seq().contains(bb.0),
        ensures
            final(self).wf(),
            final(self).block_seq() == old(self).block_seq().push(bb.0),
            final(self).inst_seq(bb.0) == Seq::<u32>::empty(),
            forall|b: u32| b != bb.0 ==> #[trigger] final(self).inst_seq(b) == old(self).inst_seq(b),
            forall|i: u32| #[trigger] final(self).inst_home(i) == old(self).inst_home(i),
    {
        self.fresh_insts(bb.0);
        let ghost mid = *self;
        self.bbs.push_back(bb.0);
        proof {
            assert forall|b: u32| #[trigger] seq_of(self.insts@, b) == seq_of(mid.insts@, b) by {}
            assert forall|i: u32| #[trigger] home_of(self.inst_map@, i) == home_of(mid.inst_map@, i) by {}
            assert forall|b: u32| #[trigger] self.bbs@.contains(b) implies b == bb.0 || old(self).bbs@.contains(b) by {
                let j = choose|j: int| 0 <= j < self.bbs@.len() && self.bbs@[j] == b;
                lemma_insert_contains(mid.bbs@, 0, bb.0);
                lemma_insert_contains(mid.bbs@, mid.bbs@.len() as int, bb.0);
            }
            self.lemma_blocks_changed(old(self), bb.0);
        }
    }

    /// Prepend a BB to the beginning of the layout.
    pub fn prepend_block(&mut self, bb: Block)
        requires
            old(self).wf(),
            !old(self).block_seq().contains(bb.0),
        ensures
            final(self).wf(),
            final(self).block_seq() == seq![bb.0] + old(self).block_seq(),
            final(self).inst_seq(bb.0) == Seq::<u32>::empty(),
            forall|b: u32| b != bb.0 ==> #[trigger] final(self).inst_seq(b) == old(self).inst_seq(b),
            forall|i: u32| #[trigger] final(self).inst_home(i) == old(self).inst_home(i),
    {
        self.fresh_insts(bb.0);
        let ghost mid = *self;
        self.bbs.push_front(bb.0);
        proof {
            assert forall|b: u32| #[trigger] seq_of(self.insts@, b) == seq_of(mid.insts@, b) by {}
            assert forall|i: u32| #[trigger] home_of(self.inst_map@, i) == home_of(mid.inst_map@, i) by {}
            assert forall|b: u32| #[trigger] self.bbs@.contains(b) implies b == bb.0 || old(self).bbs@.contains(b) by {
                let j = choose|j: int| 0 <= j < self.bbs@.len() && self.bbs@[j] == b;
                lemma_insert_contains(mid.bbs@, 0, bb.0);
                lemma_insert_contains(mid.bbs@, mid.bbs@.len() as int, bb.0);
            }
            self.lemma_blocks_changed(old(self), bb.0);
        }
    }

    /// Insert a BB after another BB.
    pub fn insert_block_after(&mut self, bb: Block, after: Block)
        requires
            old(self).wf(),
            !old(self).block_seq().contains(bb.0),
            old(self).block_seq().contains(after.0),
        ensures
            final(self).wf(),
            final(self).block_seq() == old(self).block_seq().insert(
                old(self).block_seq().index_of(after.0) + 1,
                bb.0,
            ),
            final(self).inst_seq(bb.0) == Seq::<u32>::empty(),
            forall|b: u32| b != bb.0 ==> #[trigger] final(self).inst_seq(b) == old(self).inst_seq(b),
            forall|i: u32| #[trigger] final(self).inst_home(i) == old(self).inst_home(i),
    {
        self.fresh_insts(bb.0);
        let ghost mid = *self;
        self.bbs.insert_after(bb.0, after.0);
        proof {
            assert forall|b: u32| #[trigger] seq_of(self.insts@, b) == seq_of(mid.insts@, b) by {}
            assert forall|i: u32| #[trigger] home_of(self.inst_map@, i) == home_of(mid.inst_map@, i) by {}
            assert forall|b: u32| #[trigger] self.bbs@.contains(b) implies b == bb.0 || old(self).bbs@.contains(b) by {
                let j = choose|j: int| 0 <= j < self.bbs@.len() && self.bbs@[j] == b;
                lemma_insert_contains(mid.bbs@, 0, bb.0);
                lemma_insert_contains(mid.bbs@, mid.bbs@.len() as int, bb.0);
            }
            self.lemma_blocks_changed(old(self), bb.0);
        }
    }

    /// Insert a BB before another BB.
    pub fn insert_block_before(&mut self, bb: Block, before: Block)
        requires
            old(self).wf(),
            !old(self).block_seq().contains(bb.0),
            old(self).block_seq().contains(before.0),
        ensures
            final(self).wf(),
            final(self).block_seq() == old(self).block_seq().insert(
                old(self).block_seq().index_of(before.0),
                bb.0,
            ),
            final(self).inst_seq(bb.0) == Seq::<u32>::empty(),
            forall|b: u32| b != bb.0 ==> #[trigger] final(self).inst_seq(b) == old(self).inst_seq(b),
            forall|i: u32| #[trigger] final(self).inst_home(i) == old(self).inst_home(i),
    {
        self.fresh_insts(bb.0);
        let ghost mid = *self;
        self.bbs.insert_before(bb.0, before.0);
        proof {
            assert forall|b: u32| #[trigger] seq_of(self.insts@, b) == seq_of(mid.insts@, b) by {}
            assert forall|i: u32| #[trigger] home_of(self.inst_map@, i) == home_of(mid.inst_map@, i) by {}
            assert forall|b: u32| #[trigger] self.bbs@.contains(b) implies b == bb.0 || old(self).bbs@.contains(b) by {
                let j = choose|j: int| 0 <= j < self.bbs@.len() && self.bbs@[j] == b;
                lemma_insert_contains(mid.bbs@, 0, bb.0);
                lemma_insert_contains(mid.bbs@, mid.bbs@.len() as int, bb.0);
            }
            self.lemma_blocks_changed(old(self), bb.0);
        }
    }

    /// After a block has been added with a fresh instruction order, the
    /// mapping of instructions to blocks still agrees with the orders.
    proof fn lemma_blocks_changed(&self, prev: &FunctionLayout, bb: u32)
        requires
            prev.wf(),
            !prev.bbs@.contains(bb),
            self.bbs.wf(),
            self.inst_map == prev.inst_map,
            (bb as int) < self.insts@.len(),
            self.insts@.len() >= prev.insts@.len(),
            seq_of(self.insts@, bb) == Seq::<u32>::empty(),
            forall|k: int| 0 <= k < self.insts@.len() ==> (#[trigger] self.insts@[k]).wf(),
            forall|b: u32| b != bb ==> #[trigger] seq_of(self.insts@, b) == seq_of(prev.insts@, b),
            forall|b: u32| #[trigger] self.bbs@.contains(b) ==> b == bb || prev.bbs@.contains(b),
        ensures
            self.wf(),
            forall|i: u32| #[trigger] home_of(self.inst_map@, i) == home_of(prev.inst_map@, i),
    {
        assert forall|b: u32| #[trigger] self.bbs@.contains(b) implies (b as int) < self.insts@.len() by {
            if b != bb {
                assert(prev.bbs@.contains(b));
                assert(seq_of(prev.insts@, b) == seq_of(self.insts@, b));
                assert((b as int) < prev.insts@.len());
            }
        }
        assert forall|b: u32, i: u32| self.bbs@.contains(b) && #[trigger] seq_of(self.insts@, b).contains(i)
            implies #[trigger] home_of(self.inst_map@, i) == Some(b) by {
            assert(b != bb);
            assert(prev.bbs@.contains(b));
            assert(seq_of(prev.insts@, b) == seq_of(self.insts@, b));
            assert(home_of(prev.inst_map@, i) == home_of(self.inst_map@, i));
        }
    }

    /// Remove a BB from the layout.
    ///
    /// The instructions of the BB keep pointing at it.
    pub fn remove_block(&mut self, bb: Block)
        requires
            old(self).wf(),
            old(self).block_seq().contains(bb.0),
        ensures
            final(self).wf(),
            final(self).block_seq() == old(self).block_seq().remove(old(self).block_seq().index_of(bb.0)),
            forall|b: u32| #[trigger] final(self).inst_seq(b) == old(self).inst_seq(b),
            forall|i: u32| #[trigger] final(self).inst_home(i) == old(self).inst_home(i),
    {
        self.bbs.remove(bb.0);
        proof {
            assert forall|b: u32| #[trigger] self.bbs@.contains(b) implies old(self).bbs@.contains(b) by {
                let j = choose|j: int| 0 <= j < self.bbs@.len() && self.bbs@[j] == b;
                let k = old(self).bbs@.index_of(bb.0);
                if j < k {
                    assert(old(self).bbs@[j] == b);
                } else {
                    assert(old(self).bbs@[j + 1] == b);
                }
            }
        }
    }

    /// Exchange the positions of two BBs.
    pub fn swap_blocks(&mut self, bb0: Block, bb1: Block)
        requires
            old(self).wf(),
            old(self).block_seq().contains(bb0.0),
            old(self).block_seq().contains(bb1.0),
        ensures
            final(self).wf(),
            final(self).block_seq() == old(self).block_seq().update(
                old(self).block_seq().index_of(bb0.0),
                bb1.0,
            ).update(old(self).block_seq().index_of(bb1.0), bb0.0),
            forall|b: u32| #[trigger] final(self).inst_seq(b) == old(self).inst_seq(b),
            forall|i: u32| #[trigger] final(self).inst_home(i) == old(self).inst_home(i),
    {
        self.bbs.swap(bb0.0, bb1.0);
        proof {
            let s0 = old(self).bbs@;
            let s = self.bbs@;
            assert forall|b: u32| #[trigger] s.contains(b) implies s0.contains(b) by {
                let j = choose|j: int| 0 <= j < s.len() && s[j] == b;
                let k0 = s0.index_of(bb0.0);
                let k1 = s0.index_of(bb1.0);
                if j == k1 {
                } else if j == k0 {
                } else {
                    assert(s0[j] == b);
                }
            }
        }
    }

    /// The BB containing `inst`, if it has been placed.
    pub fn inst_block(&self, inst: Inst) -> (r: Option<Block>)
        requires
            self.wf(),
        ensures
            r == opt_block(self.inst_home(inst.0)),
    {
        if (inst.0 as usize) < self.inst_map.len() {
            match self.inst_map[inst.0 as usize] {
                Some(b) => Some(Block(b)),
                None => None,
            }
        } else {
            None
        }
    }

    /// Check if an instruction has been placed into a BB.
    pub fn is_inst_inserted(&self, inst: Inst) -> (b: bool)
        requires
            self.wf(),
        ensures
            b == (self.inst_home(inst.0) is Some),
    {
        self.inst_block(inst).is_some()
    }

    /// All instructions of `bb` in layout order.
    pub fn insts(&self, bb: Block) -> (v: Vec<Inst>)
        requires
            self.wf(),
            self.block_seq().contains(bb.0),
        ensures
            v@ == as_insts(self.inst_seq(bb.0)),
    {
        let raw = self.insts[bb.0 as usize].to_vec();
        let mut v: Vec<Inst> = Vec::new();
        let mut k: usize = 0;
        while k < raw.len()
            invariant
                k <= raw@.len(),
                raw@ == seq_of(self.insts@, bb.0),
                v@ == as_insts(raw@.subrange(0, k as int)),
            decreases raw@.len() - k,
        {
            v.push(Inst(raw[k]));
            k = k + 1;
            assert(v@ =~= as_insts(raw@.subrange(0, k as int)));
        }
        assert(raw@.subrange(0, k as int) =~= raw@);
        v
    }

    /// The first instruction of `bb`.
    pub fn first_inst(&self, bb: Block) -> (r: Option<Inst>)
        requires
            self.wf(),
            self.block_seq().contains(bb.0),
        ensures
            r == opt_inst(first_of(self.inst_seq(bb.0))),
    {
        match self.insts[bb.0 as usize].first() {
            Some(x) => Some(Inst(x)),
            None => None,
        }
    }

    /// The last instruction of `bb`.
    pub fn last_inst(&self, bb: Block) -> (r: Option<Inst>)
        requires
            self.wf(),
            self.block_seq().contains(bb.0),
        ensures
            r == opt_inst(last_of(self.inst_seq(bb.0))),
    {
        match self.insts[bb.0 as usize].last() {
            Some(x) => Some(Inst(x)),
            None => None,
        }
    }

    /// The instruction preceding `inst` within its BB.
    pub fn prev_inst(&self, inst: Inst) -> (r: Option<Inst>)
        requires
            self.wf(),
            self.inst_placed(inst.0),
        ensures
            r == opt_inst(prev_in(
                self.inst_seq(self.inst_home(inst.0)->0),
                self.inst_seq(self.inst_home(inst.0)->0).index_of(inst.0),
            )),
    {
        let bb = self.inst_map[inst.0 as usize].unwrap();
        match self.insts[bb as usize].prev(inst.0) {
            Some(x) => Some(Inst(x)),
            None => None,
        }
    }

    /// The instruction following `inst` within its BB.
    pub fn next_inst(&self, inst: Inst) -> (r: Option<Inst>)
        requires
            self.wf(),
            self.inst_placed(inst.0),
        ensures
            r == opt_inst(next_in(
                self.inst_seq(self.inst_home(inst.0)->0),
                self.inst_seq(self.inst_home(inst.0)->0).index_of(inst.0),
            )),
    {
        let bb = self.inst_map[inst.0 as usize].unwrap();
        match self.insts[bb as usize].next(inst.0) {
            Some(x) => Some(Inst(x)),
            None => None,
        }
    }

    /// Record that `inst` lives in `bb`.
    fn map_inst(&mut self, inst: u32, bb: u32)
        requires
            home_of(old(self).inst_map@, inst) is None,
        ensures
            final(self).bbs == old(self).bbs,
            final(self).insts == old(self).insts,
            home_of(final(self).inst_map@, inst) == Some(bb),
            forall|i: u32| i != inst ==> #[trigger] home_of(final(self).inst_map@, i) == home_of(old(self).inst_map@, i),
    {
        while self.inst_map.len() <= inst as usize
            invariant
                self.bbs == old(self).bbs,
                self.insts == old(self).insts,
                forall|i: u32| #[trigger] home_of(self.inst_map@, i) == home_of(old(self).inst_map@, i),
            decreases (inst as int) + 1 - self.inst_map@.len(),
        {
            let ghost before = *self;
            self.inst_map.push(None);
            assert forall|i: u32| #[trigger] home_of(self.inst_map@, i) == home_of(before.inst_map@, i) by {
                if (i as int) < before.inst_map@.len() {
                    assert(self.inst_map@[i as int] == before.inst_map@[i as int]);
                }
            }
        }
        let ghost mid = *self;
        self.inst_map.set(inst as usize, Some(bb));
        assert forall|i: u32| i != inst implies #[trigger] home_of(self.inst_map@, i) == home_of(old(self).inst_map@, i) by {
            if (i as int) < self.inst_map@.len() {
                assert(self.inst_map@[i as int] == mid.inst_map@[i as int]);
            }
            assert(home_of(mid.inst_map@, i) == home_of(old(self).inst_map@, i));
        }
    }

    /// Forget which block `inst` lives in.
    fn unmap_inst(&mut self, inst: u32)
        requires
            (inst as int) < old(self).inst_map@.len(),
        ensures
            final(self).bbs == old(self).bbs,
            final(self).insts == old(self).insts,
            home_of(final(self).inst_map@, inst) is None,
            forall|i: u32| i != inst ==> #[trigger] home_of(final(self).inst_map@, i) == home_of(old(self).inst_map@, i),
    {
        self.inst_map.set(inst as usize, None);
    }

    /// Apply `f` to the instruction order of `bb`.
    fn put_order(&mut self, bb: u32, order: IdOrder)
        requires
            (bb as int) < old(self).insts@.len(),
        ensures
            final(self).bbs == old(self).bbs,
            final(self).inst_map == old(self).inst_map,
            final(self).insts@ == old(self).insts@.update(bb as int, order),
            seq_of(final(self).insts@, bb) == order@,
            forall|b: u32| b != bb ==> #[trigger] seq_of(final(self).insts@, b) == seq_of(old(self).insts@, b),
    {
        self.insts.set(bb as usize, order);
    }

    fn take_order(&mut self, bb: u32) -> (o: IdOrder)
        requires
            old(self).wf(),
            old(self).bbs@.contains(bb),
        ensures
            o == old(self).insts@[bb as int],
            o.wf(),
            o@ == seq_of(old(self).insts@, bb),
            final(self).bbs == old(self).bbs,
            final(self).inst_map == old(self).inst_map,
            final(self).insts@.len() == old(self).insts@.len(),
            forall|b: u32| b != bb ==> #[trigger] seq_of(final(self).insts@, b) == seq_of(old(self).insts@, b),
            forall|k: int| 0 <= k < final(self).insts@.len() ==> (#[trigger] final(self).insts@[k]).wf(),
    {
        let mut o = IdOrder::new();
        self.insts.set_and_swap(bb as usize, &mut o);
        proof {
            assert forall|k: int| 0 <= k < self.insts@.len() implies (#[trigger] self.insts@[k]).wf() by {
                if k != bb as int {
                    assert(self.insts@[k] == old(self).insts@[k]);
                }
            }
            assert forall|b: u32| b != bb implies #[trigger] seq_of(self.insts@, b) == seq_of(old(self).insts@, b) by {
                if (b as int) < self.insts@.len() {
                    assert(self.insts@[b as int] == old(self).insts@[b as int]);
                }
            }
        }
        o
    }

    /// Re-establish consistency after the order of one BB changed by
    /// adding or removing a single instruction.
    proof fn lemma_after_inst_change(&self, prev: &FunctionLayout, bb: u32, inst: u32, added: bool)
        requires
            prev.wf(),
            prev.bbs@.contains(bb),
            self.bbs == prev.bbs,
            self.insts@.len() == prev.insts@.len(),
            forall|k: int| 0 <= k < self.insts@.len() ==> (#[trigger] self.insts@[k]).wf(),
            forall|b: u32| b != bb ==> #[trigger] seq_of(self.insts@, b) == seq_of(prev.insts@, b),
            forall|i: u32| i != inst ==> #[trigger] home_of(self.inst_map@, i) == home_of(prev.inst_map@, i),
            forall|i: u32| #[trigger] seq_of(self.insts@, bb).contains(i) ==> i == inst || seq_of(prev.insts@, bb).contains(i),
            added ==> home_of(self.inst_map@, inst) == Some(bb),
            added ==> home_of(prev.inst_map@, inst) is None,
            !added ==> !seq_of(self.insts@, bb).contains(inst),
            !added ==> forall|b: u32| self.bbs@.contains(b) && #[trigger] seq_of(self.insts@, b).contains(inst) ==> b == bb,
        ensures
            self.wf(),
    {
        assert forall|b: u32| #[trigger] self.bbs@.contains(b) implies (b as int) < self.insts@.len() by {
            assert(prev.bbs@.contains(b));
        }
        assert forall|b: u32, i: u32| self.bbs@.contains(b) && #[trigger] seq_of(self.insts@, b).contains(i)
            implies #[trigger] home_of(self.inst_map@, i) == Some(b) by {
            if b == bb {
                if i != inst {
                    assert(seq_of(prev.insts@, bb).contains(i));
                    assert(home_of(prev.inst_map@, i) == Some(bb));
                }
            } else {
                assert(seq_of(self.insts@, b) == seq_of(prev.insts@, b));
                if i == inst {
                    if !added {
                        assert(false);
                    } else {
                        assert(home_of(prev.inst_map@, i) == Some(b));
                        assert(home_of(prev.inst_map@, inst) is None || home_of(prev.inst_map@, inst) is Some);
                    }
                } else {
                    assert(home_of(prev.inst_map@, i) == Some(b));
                }
            }
        }
    }

    /// Append an instruction to the end of a BB.
    pub fn append_inst(&mut self, inst: Inst, bb: Block)
        requires
            old(self).wf(),
            old(self).block_seq().contains(bb.0),
            old(self).inst_home(inst.0) is None,
        ensures
            final(self).wf(),
            final(self).block_seq() == old(self).block_seq(),
            final(self).inst_seq(bb.0) == old(self).inst_seq(bb.0).push(inst.0),
            forall|b: u32| b != bb.0 ==> #[trigger] final(self).inst_seq(b) == old(self).inst_seq(b),
            final(self).inst_home(inst.0) == Some(bb.0),
            forall|i: u32| i != inst.0 ==> #[trigger] final(self).inst_home(i) == old(self).inst_home(i),
    {
        proof { self.lemma_unplaced_absent(inst.0); }
        let mut o = self.take_order(bb.0);
        let ghost s0 = o@;
        o.push_back(inst.0);
        proof { lemma_insert_contains(s0, s0.len() as int, inst.0); assert(o@ == s0.insert(s0.len() as int, inst.0)); }
        self.put_order(bb.0, o);
        self.map_inst(inst.0, bb.0);
        proof { self.lemma_after_add(old(self), bb.0, inst.0); }
    }

    /// Prepend an instruction to the beginning of a BB.
    pub fn prepend_inst(&mut self, inst: Inst, bb: Block)
        requires
            old(self).wf(),
            old(self).block_seq().contains(bb.0),
            old(self).inst_home(inst.0) is None,
        ensures
            final(self).wf(),
            final(self).block_seq() == old(self).block_seq(),
            final(self).inst_seq(bb.0) == seq![inst.0] + old(self).inst_seq(bb.0),
            forall|b: u32| b != bb.0 ==> #[trigger] final(self).inst_seq(b) == old(self).inst_seq(b),
            final(self).inst_home(inst.0) == Some(bb.0),
            forall|i: u32| i != inst.0 ==> #[trigger] final(self).inst_home(i) == old(self).inst_home(i),
    {
        proof { self.lemma_unplaced_absent(inst.0); }
        let mut o = self.take_order(bb.0);
        let ghost s0 = o@;
        o.push_front(inst.0);
        proof { lemma_insert_contains(s0, 0, inst.0); assert(o@ == s0.insert(0, inst.0)); }
        self.put_order(bb.0, o);
        self.map_inst(inst.0, bb.0);
        proof { self.lemma_after_add(old(self), bb.0, inst.0); }
    }

    /// Insert an instruction after another instruction.
    pub fn insert_inst_after(&mut self, inst: Inst, after: Inst)
        requires
            old(self).wf(),
            old(self).inst_placed(after.0),
            old(self).inst_home(inst.0) is None,
        ensures
            final(self).wf(),
            final(self).block_seq() == old(self).block_seq(),
            final(self).inst_seq(old(self).inst_home(after.0)->0) == old(self).inst_seq(
                old(self).inst_home(after.0)->0,
            ).insert(old(self).inst_seq(old(self).inst_home(after.0)->0).index_of(after.0) + 1, inst.0),
            forall|b: u32| b != old(self).inst_home(after.0)->0 ==> #[trigger] final(self).inst_seq(b)
                == old(self).inst_seq(b),
            final(self).inst_home(inst.0) == old(self).inst_home(after.0),
            forall|i: u32| i != inst.0 ==> #[trigger] final(self).inst_home(i) == old(self).inst_home(i),
    {
        proof { self.lemma_unplaced_absent(inst.0); }
        let bb = self.inst_map[after.0 as usize].unwrap();
        let mut o = self.take_order(bb);
        let ghost s0 = o@;
        o.insert_after(inst.0, after.0);
        proof { lemma_insert_contains(s0, s0.index_of(after.0) + 1, inst.0); assert(o@ == s0.insert(s0.index_of(after.0) + 1, inst.0)); }
        self.put_order(bb, o);
        self.map_inst(inst.0, bb);
        proof { self.lemma_after_add(old(self), bb, inst.0); }
    }

    /// Insert an instruction before another instruction.
    pub fn insert_inst_before(&mut self, inst: Inst, before: Inst)
        requires
            old(self).wf(),
            old(self).inst_placed(before.0),
            old(self).inst_home(inst.0) is None,
        ensures
            final(self).wf(),
            final(self).block_seq() == old(self).block_seq(),
            final(self).inst_seq(old(self).inst_home(before.0)->0) == old(self).inst_seq(
                old(self).inst_home(before.0)->0,
            ).insert(old(self).inst_seq(old(self).inst_home(before.0)->0).index_of(before.0), inst.0),
            forall|b: u32| b != old(self).inst_home(before.0)->0 ==> #[trigger] final(self).inst_seq(b)
                == old(self).inst_seq(b),
            final(self).inst_home(inst.0) == old(self).inst_home(before.0),
            forall|i: u32| i != inst.0 ==> #[trigger] final(self).inst_home(i) == old(self).inst_home(i),
    {
        proof { self.lemma_unplaced_absent(inst.0); }
        let bb = self.inst_map[before.0 as usize].unwrap();
        let mut o = self.take_order(bb);
        let ghost s0 = o@;
        o.insert_before(inst.0, before.0);
        proof { lemma_insert_contains(s0, s0.index_of(before.0), inst.0); assert(o@ == s0.insert(s0.index_of(before.0), inst.0)); }
        self.put_order(bb, o);
        self.map_inst(inst.0, bb);
        proof { self.lemma_after_add(old(self), bb, inst.0); }
    }

    /// Remove an instruction from the layout.
    pub fn remove_inst(&mut self, inst: Inst)
        requires
            old(self).wf(),
            old(self).inst_placed(inst.0),
        ensures
            final(self).wf(),
            final(self).block_seq() == old(self).block_seq(),
            final(self).inst_seq(old(self).inst_home(inst.0)->0) == old(self).inst_seq(
                old(self).inst_home(inst.0)->0,
            ).remove(old(self).inst_seq(old(self).inst_home(inst.0)->0).index_of(inst.0)),
            forall|b: u32| b != old(self).inst_home(inst.0)->0 ==> #[trigger] final(self).inst_seq(b)
                == old(self).inst_seq(b),
            final(self).inst_home(inst.0) is None,
            forall|i: u32| i != inst.0 ==> #[trigger] final(self).inst_home(i) == old(self).inst_home(i),
    {
        let bb = self.inst_map[inst.0 as usize].unwrap();
        let mut o = self.take_order(bb);
        let ghost s0 = o@;
        proof { o.lemma_distinct(); }
        o.remove(inst.0);
        self.put_order(bb, o);
        self.unmap_inst(inst.0);
        proof {
            let s = seq_of(self.insts@, bb);
            let k = s0.index_of(inst.0);
            assert forall|i: u32| #[trigger] s.contains(i) implies i == inst.0 || s0.contains(i) by {
                let j = choose|j: int| 0 <= j < s.len() && s[j] == i;
                if j < k { assert(s0[j] == i); } else { assert(s0[j + 1] == i); }
            }
            assert(!s.contains(inst.0)) by {
                if s.contains(inst.0) {
                    let j = choose|j: int| 0 <= j < s.len() && s[j] == inst.0;
                    if j < k { assert(s0[j] == inst.0); } else { assert(s0[j + 1] == inst.0); }
                }
            }
            assert forall|b: u32| self.bbs@.contains(b) && #[trigger] seq_of(self.insts@, b).contains(inst.0) implies b == bb by {
                if b != bb {
                    assert(seq_of(old(self).insts@, b) == seq_of(self.insts@, b));
                    assert(home_of(old(self).inst_map@, inst.0) == Some(b));
                }
            }
            self.lemma_after_inst_change(old(self), bb, inst.0, false);
        }
    }

    /// No BB appears twice in the layout, and no instruction twice in the
    /// order of an inserted BB.
    pub proof fn lemma_distinct(&self, bb: u32)
        requires
            self.wf(),
        ensures
            self.block_seq().no_duplicates(),
            self.block_seq().contains(bb) ==> self.inst_seq(bb).no_duplicates(),
    {
        self.bbs.lemma_distinct();
        if self.block_seq().contains(bb) {
            assert((bb as int) < self.insts@.len());
            self.insts@[bb as int].lemma_distinct();
        }
    }

    /// An instruction in the order of an inserted BB has that BB as home.
    pub proof fn lemma_home_of_placed(&self, bb: u32, inst: u32)
        requires
            self.wf(),
            self.block_seq().contains(bb),
            self.inst_seq(bb).contains(inst),
        ensures
            self.inst_home(inst) == Some(bb),
    {
    }

    proof fn lemma_unplaced_absent(&self, inst: u32)
        requires
            self.wf(),
            home_of(self.inst_map@, inst) is None,
        ensures
            forall|b: u32| self.bbs@.contains(b) ==> !(#[trigger] seq_of(self.insts@, b)).contains(inst),
    {
    }

    proof fn lemma_after_add(&self, prev: &FunctionLayout, bb: u32, inst: u32)
        requires
            prev.wf(),
            prev.bbs@.contains(bb),
            self.bbs == prev.bbs,
            self.insts@.len() == prev.insts@.len(),
            forall|k: int| 0 <= k < self.insts@.len() ==> (#[trigger] self.insts@[k]).wf(),
            forall|b: u32| b != bb ==> #[trigger] seq_of(self.insts@, b) == seq_of(prev.insts@, b),
            forall|i: u32| i != inst ==> #[trigger] home_of(self.inst_map@, i) == home_of(prev.inst_map@, i),
            home_of(self.inst_map@, inst) == Some(bb),
            home_of(prev.inst_map@, inst) is None,
            forall|i: u32| #[trigger] seq_of(self.insts@, bb).contains(i) ==> i == inst || seq_of(prev.insts@, bb).contains(i),
        ensures
            self.wf(),
    {
        self.lemma_after_inst_change(prev, bb, inst, true);
    }
}

/// Every element of a sequence with one element inserted is either that
/// element or was there before.
pub proof fn lemma_insert_contains(s0: Seq<u32>, k: int, x: u32)
    requires
        0 <= k <= s0.len(),
    ensures
        forall|i: u32| #[trigger] s0.insert(k, x).contains(i) ==> i == x || s0.contains(i),
{
    let s = s0.insert(k, x);
    assert forall|i: u32| #[trigger] s.contains(i) implies i == x || s0.contains(i) by {
        let j = choose|j: int| 0 <= j < s.len() && s[j] == i;
        if j < k {
            assert(s0[j] == i);
        } else if j > k {
            assert(s0[j - 1] == i);
        }
    }
}

} // verus!
