//! Predecessor and successor tables of the control flow graph.

use crate::ir::inst::is_temporal_op;
use crate::ir::keys::{Block, Inst};
use crate::ir::layout::as_blocks;
use crate::ir::unit::{Unit, UnitData};
use vstd::prelude::*;

verus! {

/// The blocks named by the last instruction of `bb`, none if the block is
/// empty. In a temporal table a temporal last instruction names none.
pub open spec fn succ_seq(d: UnitData, bb: Block, temporal: bool) -> Seq<Block> {
    if d.inst_ids(bb).len() == 0 {
        Seq::empty()
    } else {
        let term = d.spec_inst(Inst(d.inst_ids(bb).last()))->0;
        if temporal && is_temporal_op(term.spec_opcode()) {
            Seq::empty()
        } else {
            term.spec_blocks()
        }
    }
}

/// `p` is an inserted block that branches to `bb`.
pub open spec fn is_pred(d: UnitData, p: Block, bb: Block, temporal: bool) -> bool {
    &&& d.block_ids().contains(p.0)
    &&& succ_seq(d, p, temporal).contains(bb)
}

/// `s` lists the elements of a set without repetition.
pub open spec fn lists(s: Seq<Block>, f: spec_fn(Block) -> bool) -> bool {
    &&& s.no_duplicates()
    &&& forall|b: Block| #[trigger] s.contains(b) <==> f(b)
}

/// A table of basic block predecessors and successors.
pub struct PredecessorTable {
    present: Vec<bool>,
    pred: Vec<Vec<Block>>,
    succ: Vec<Vec<Block>>,
}

/// `v` contains `b`.
pub(crate) fn contains_block(v: &Vec<Block>, b: Block) -> (r: bool)
    ensures
        r == v@.contains(b),
{
    let mut k: usize = 0;
    while k < v.len()
        invariant
            k <= v@.len(),
            forall|j: int| 0 <= j < k ==> v@[j] != b,
        decreases v@.len() - k,
    {
        if v[k] == b {
            return true;
        }
        k = k + 1;
    }
    false
}

/// The elements of `v`, each once, in order of first appearance.
fn dedup_blocks(v: &Vec<Block>) -> (r: Vec<Block>)
    ensures
        r@.no_duplicates(),
        forall|b: Block| #[trigger] r@.contains(b) <==> v@.contains(b),
{
    let mut r: Vec<Block> = Vec::new();
    let mut k: usize = 0;
    while k < v.len()
        invariant
            k <= v@.len(),
            r@.no_duplicates(),
            forall|b: Block| #[trigger] r@.contains(b) <==> v@.subrange(0, k as int).contains(b),
        decreases v@.len() - k,
    {
        let b = v[k];
        let ghost before = r@;
        if !contains_block(&r, b) {
            r.push(b);
        }
        proof {
            let s1 = v@.subrange(0, k + 1);
            let s0 = v@.subrange(0, k as int);
            assert forall|x: Block| #[trigger] r@.contains(x) <==> s1.contains(x) by {
                if s1.contains(x) {
                    let j = choose|j: int| 0 <= j < s1.len() && s1[j] == x;
                    if j < k {
                        assert(s0[j] == x);
                        assert(before.contains(x));
                        let i = choose|i: int| 0 <= i < before.len() && before[i] == x;
                        assert(r@[i] == x);
                    } else {
                        if r@.len() > before.len() {
                            assert(r@[r@.len() - 1] == x);
                        }
                    }
                }
                if r@.contains(x) {
                    let i = choose|i: int| 0 <= i < r@.len() && r@[i] == x;
                    if i < before.len() {
                        assert(before[i] == x);
                        assert(before.contains(x));
                        assert(s0.contains(x));
                        let j = choose|j: int| 0 <= j < s0.len() && s0[j] == x;
                        assert(s1[j] == x);
                    } else {
                        assert(x == b);
                        assert(s1[k as int] == x);
                    }
                }
            }
        }
        k = k + 1;
    }
    assert(v@.subrange(0, k as int) =~= v@);
    r
}

impl PredecessorTable {
    /// The predecessors recorded for `bb`, if `bb` has an entry.
    pub closed spec fn spec_preds(&self, bb: Block) -> Option<Seq<Block>> {
        if (bb.0 as int) < self.present@.len() && self.present@[bb.0 as int] {
            Some(self.pred@[bb.0 as int]@)
        } else {
            None
        }
    }

    /// The successors recorded for `bb`, if `bb` has an entry.
    pub closed spec fn spec_succs(&self, bb: Block) -> Option<Seq<Block>> {
        if (bb.0 as int) < self.present@.len() && self.present@[bb.0 as int] {
            Some(self.succ@[bb.0 as int]@)
        } else {
            None
        }
    }

    /// The table holds exactly the predecessors and successors of the
    /// inserted blocks of `d`, each once.
    pub open spec fn describes(&self, d: UnitData, temporal: bool) -> bool {
        &&& forall|bb: Block| #[trigger] self.spec_preds(bb) is Some <==> d.block_ids().contains(bb.0)
        &&& forall|bb: Block| #[trigger] self.spec_succs(bb) is Some <==> d.block_ids().contains(bb.0)
        &&& forall|bb: Block| #[trigger] d.block_ids().contains(bb.0) ==> self.spec_preds(bb)->0.no_duplicates()
            && self.spec_succs(bb)->0.no_duplicates()
        &&& forall|bb: Block, p: Block| d.block_ids().contains(bb.0) ==> (#[trigger] self.spec_preds(bb)->0.contains(p)
            <==> is_pred(d, p, bb, temporal))
        &&& forall|bb: Block, s: Block| d.block_ids().contains(bb.0) ==> (#[trigger] self.spec_succs(bb)->0.contains(s)
            <==> succ_seq(d, bb, temporal).contains(s))
    }

    /// The table is internally consistent.
    pub closed spec fn wf(&self) -> bool {
        &&& self.pred@.len() == self.present@.len()
        &&& self.succ@.len() == self.present@.len()
    }

    /// The blocks the last instruction of `bb` names.
    fn targets(unit: Unit, bb: Block, temporal: bool) -> (v: Vec<Block>)
        requires
            unit@.wf(),
            unit@.block_ids().contains(bb.0),
        ensures
            v@ == succ_seq(unit@, bb, temporal),
    {
        match unit.last_inst(bb) {
            Some(term) => {
                proof {
                    unit@.lemma_placed_exists(bb.0, term.0);
                }
                let data = unit.inst_data(term);
                if temporal && data.opcode().is_temporal() {
                    Vec::new()
                } else {
                    data.blocks()
                }
            },
            None => Vec::new(),
        }
    }

    /// Compute the table of a unit, leaving out the edges that leave a
    /// temporal instruction if `temporal` is set.
    fn compute(unit: Unit, temporal: bool) -> (t: Self)
        requires
            unit@.wf(),
            unit@.targets_inserted(),
        ensures
            t.wf(),
            t.describes(unit@, temporal),
    {
        let n = unit.block_id_bound();
        let mut present: Vec<bool> = Vec::new();
        let mut pred: Vec<Vec<Block>> = Vec::new();
        let mut succ: Vec<Vec<Block>> = Vec::new();
        let mut k: usize = 0;
        while k < n
            invariant
                k <= n,
                n == unit@.block_bound(),
                present@.len() == k,
                pred@.len() == k,
                succ@.len() == k,
                forall|j: int| 0 <= j < k ==> !#[trigger] present@[j],
                forall|j: int| 0 <= j < k ==> (#[trigger] pred@[j])@ == Seq::<Block>::empty(),
                forall|j: int| 0 <= j < k ==> (#[trigger] succ@[j])@ == Seq::<Block>::empty(),
            decreases n - k,
        {
            let ghost p0 = present@;
            let ghost q0 = pred@;
            let ghost r0 = succ@;
            present.push(false);
            pred.push(Vec::new());
            succ.push(Vec::new());
            proof {
                assert forall|j: int| 0 <= j < k + 1 implies !#[trigger] present@[j] by {
                    if j < k {
                        assert(present@[j] == p0[j]);
                    }
                }
                assert forall|j: int| 0 <= j < k + 1 implies (#[trigger] pred@[j])@ == Seq::<Block>::empty() by {
                    if j < k {
                        assert(pred@[j] == q0[j]);
                    }
                }
                assert forall|j: int| 0 <= j < k + 1 implies (#[trigger] succ@[j])@ == Seq::<Block>::empty() by {
                    if j < k {
                        assert(succ@[j] == r0[j]);
                    }
                }
            }
            k = k + 1;
        }
        let bbs = unit.blocks();
        let ghost ids = unit@.block_ids();
        proof {
            assert(ids.subrange(0, 0) =~= Seq::<u32>::empty());
            unit@.lemma_distinct(Block(0));
        }
        let mut k: usize = 0;
        while k < bbs.len()
            invariant
                unit@.wf(),
                k <= bbs@.len(),
                bbs@ == as_blocks(ids),
                ids == unit@.block_ids(),
                n == unit@.block_bound(),
                present@.len() == n,
                pred@.len() == n,
                succ@.len() == n,
                forall|j: int| 0 <= j < n ==> (#[trigger] pred@[j])@ == Seq::<Block>::empty(),
                forall|j: int| 0 <= j < n ==> (#[trigger] succ@[j])@ == Seq::<Block>::empty(),
                forall|j: int| 0 <= j < n ==> (#[trigger] present@[j] <==> ids.subrange(0, k as int).contains(j as u32)),
            decreases bbs@.len() - k,
        {
            let bb = bbs[k];
            proof {
                assert(ids[k as int] == bb.0);
                unit@.lemma_block_bound(bb.0);
            }
            present.set(bb.0 as usize, true);
            proof {
                let s1 = ids.subrange(0, k + 1);
                let s0 = ids.subrange(0, k as int);
                assert forall|j: int| 0 <= j < n implies (#[trigger] present@[j] <==> s1.contains(j as u32)) by {
                    if s1.contains(j as u32) {
                        let i = choose|i: int| 0 <= i < s1.len() && s1[i] == j as u32;
                        if i < k {
                            assert(s0[i] == j as u32);
                        }
                    }
                    if j != bb.0 as int && present@[j] {
                        let i = choose|i: int| 0 <= i < s0.len() && s0[i] == j as u32;
                        assert(s1[i] == j as u32);
                    }
                    if j == bb.0 as int {
                        assert(s1[k as int] == bb.0);
                    }
                }
            }
            k = k + 1;
        }
        proof {
            assert(ids.subrange(0, k as int) =~= ids);
        }
        let mut k: usize = 0;
        while k < bbs.len()
            invariant
                unit@.wf(),
                unit@.targets_inserted(),
                k <= bbs@.len(),
                bbs@ == as_blocks(ids),
                ids.no_duplicates(),
                ids == unit@.block_ids(),
                n == unit@.block_bound(),
                present@.len() == n,
                pred@.len() == n,
                succ@.len() == n,
                forall|j: int| 0 <= j < n ==> (#[trigger] present@[j] <==> ids.contains(j as u32)),
                forall|j: int| 0 <= j < n ==> (#[trigger] pred@[j]@).no_duplicates(),
                forall|j: int, p: Block| 0 <= j < n ==> (#[trigger] pred@[j]@.contains(p) <==> (ids.subrange(0, k as int).contains(p.0)
                    && succ_seq(unit@, p, temporal).contains(Block(j as u32)))),
                forall|j: int| 0 <= j < n && ids.subrange(0, k as int).contains(j as u32) ==> (#[trigger] succ@[j]@).no_duplicates(),
                forall|j: int, s: Block| 0 <= j < n && ids.subrange(0, k as int).contains(j as u32) ==> (
                    #[trigger] succ@[j]@.contains(s) <==> succ_seq(unit@, Block(j as u32), temporal).contains(s)),
            decreases bbs@.len() - k,
        {
            let bb = bbs[k];
            proof {
                assert(ids[k as int] == bb.0);
                assert(ids.contains(bb.0));
                unit@.lemma_block_bound(bb.0);
            }
            let targets = Self::targets(unit, bb, temporal);
            proof {
                assert(unit@.branches_inserted(bb.0));
            }
            let mut j: usize = 0;
            while j < targets.len()
                invariant
                    unit@.wf(),
                    j <= targets@.len(),
                    targets@ == succ_seq(unit@, bb, temporal),
                    forall|x: int| 0 <= x < targets@.len() ==> ids.contains(#[trigger] targets@[x].0),
                    ids == unit@.block_ids(),
                    ids[k as int] == bb.0,
                    k < ids.len(),
                    ids.no_duplicates(),
                    n == unit@.block_bound(),
                    pred@.len() == n,
                    forall|i: int| 0 <= i < n ==> (#[trigger] pred@[i]@).no_duplicates(),
                    forall|i: int, p: Block| 0 <= i < n ==> (#[trigger] pred@[i]@.contains(p) <==> ((ids.subrange(0, k as int).contains(p.0)
                        && succ_seq(unit@, p, temporal).contains(Block(i as u32))) || (p == bb && targets@.subrange(0, j as int).contains(Block(i as u32))))),
                decreases targets@.len() - j,
            {
                let t = targets[j];
                proof {
                    assert(ids.contains(t.0));
                    unit@.lemma_block_bound(t.0);
                }
                let ghost before = pred@;
                if !contains_block(&pred[t.0 as usize], bb) {
                    pred[t.0 as usize].push(bb);
                }
                proof {
                    let t1 = targets@.subrange(0, j + 1);
                    let t0 = targets@.subrange(0, j as int);
                    assert forall|i: int| 0 <= i < n implies (#[trigger] pred@[i]@).no_duplicates() by {
                        assert(before[i]@.no_duplicates());
                    }
                    assert forall|i: int, p: Block| 0 <= i < n implies (#[trigger] pred@[i]@.contains(p) <==> ((ids.subrange(0, k as int).contains(p.0)
                        && succ_seq(unit@, p, temporal).contains(Block(i as u32))) || (p == bb && targets@.subrange(0, j + 1).contains(Block(i as u32))))) by {
                        if t0.contains(Block(i as u32)) {
                            let x = choose|x: int| 0 <= x < t0.len() && t0[x] == Block(i as u32);
                            assert(t1[x] == Block(i as u32));
                        }
                        if t1.contains(Block(i as u32)) {
                            let x = choose|x: int| 0 <= x < t1.len() && t1[x] == Block(i as u32);
                            if x < j {
                                assert(t0[x] == Block(i as u32));
                            }
                        }
                        if i == t.0 as int {
                            assert(t1[j as int] == t);
                            if pred@[i]@.contains(p) && !before[i]@.contains(p) {
                                assert(p == bb);
                            }
                            if before[i]@.contains(p) {
                                let y = choose|y: int| 0 <= y < before[i]@.len() && before[i]@[y] == p;
                                assert(pred@[i]@[y] == p);
                            }
                            if p == bb {
                                if pred@[i]@.len() == before[i]@.len() + 1 {
                                    assert(pred@[i]@[before[i]@.len() as int] == bb);
                                }
                            }
                        }
                        if pred@[i]@.contains(p) && i == t.0 as int && pred@[i]@.len() == before[i]@.len() + 1 {
                            let y = choose|y: int| 0 <= y < pred@[i]@.len() && pred@[i]@[y] == p;
                            if y < before[i]@.len() {
                                assert(before[i]@[y] == p);
                            }
                        }
                    }
                }
                j = j + 1;
            }
            let ghost sbefore = succ@;
            succ.set(bb.0 as usize, dedup_blocks(&targets));
            proof {
                let s1 = ids.subrange(0, k + 1);
                let s0 = ids.subrange(0, k as int);
                assert(targets@.subrange(0, j as int) =~= targets@);
                assert forall|i: int, p: Block| 0 <= i < n implies (#[trigger] pred@[i]@.contains(p) <==> (ids.subrange(0, k + 1).contains(p.0)
                    && succ_seq(unit@, p, temporal).contains(Block(i as u32)))) by {
                    if s1.contains(p.0) {
                        let x = choose|x: int| 0 <= x < s1.len() && s1[x] == p.0;
                        if x < k {
                            assert(s0[x] == p.0);
                        } else {
                            assert(p == bb);
                        }
                    }
                    if s0.contains(p.0) {
                        let x = choose|x: int| 0 <= x < s0.len() && s0[x] == p.0;
                        assert(s1[x] == p.0);
                    }
                    if p == bb {
                        assert(s1[k as int] == bb.0);
                    }
                }
                assert forall|i: int| 0 <= i < n && ids.subrange(0, k + 1).contains(i as u32) implies (#[trigger] succ@[i]@).no_duplicates() by {
                    if i != bb.0 as int {
                        let x = choose|x: int| 0 <= x < s1.len() && s1[x] == i as u32;
                        if x == k {
                            assert(ids[k as int] == bb.0);
                        }
                        assert(s0[x] == i as u32);
                    }
                }
                assert forall|i: int, s: Block| 0 <= i < n && ids.subrange(0, k + 1).contains(i as u32) implies (
                    #[trigger] succ@[i]@.contains(s) <==> succ_seq(unit@, Block(i as u32), temporal).contains(s)) by {
                    if i != bb.0 as int {
                        let x = choose|x: int| 0 <= x < s1.len() && s1[x] == i as u32;
                        if x == k {
                            assert(ids[k as int] == bb.0);
                        }
                        assert(s0[x] == i as u32);
                    } else {
                        assert(Block(i as u32) == bb);
                    }
                }
            }
            k = k + 1;
        }
        proof {
            assert(ids.subrange(0, k as int) =~= ids);
        }
        let t = PredecessorTable { present, pred, succ };
        proof {
            assert forall|bb: Block| #[trigger] t.spec_preds(bb) is Some <==> unit@.block_ids().contains(bb.0) by {
                if unit@.block_ids().contains(bb.0) {
                    unit@.lemma_block_bound(bb.0);
                }
            }
            assert forall|bb: Block| #[trigger] t.spec_succs(bb) is Some <==> unit@.block_ids().contains(bb.0) by {
                if unit@.block_ids().contains(bb.0) {
                    unit@.lemma_block_bound(bb.0);
                }
            }
            assert forall|bb: Block| #[trigger] unit@.block_ids().contains(bb.0) implies t.spec_preds(bb)->0.no_duplicates()
                && t.spec_succs(bb)->0.no_duplicates() by {
                unit@.lemma_block_bound(bb.0);
            }
            assert forall|bb: Block, p: Block| unit@.block_ids().contains(bb.0) implies (#[trigger] t.spec_preds(bb)->0.contains(p)
                <==> is_pred(unit@, p, bb, temporal)) by {
                unit@.lemma_block_bound(bb.0);
                assert(pred@[bb.0 as int]@.contains(p) <==> (ids.contains(p.0) && succ_seq(unit@, p, temporal).contains(Block(bb.0))));
            }
            assert forall|bb: Block, s: Block| unit@.block_ids().contains(bb.0) implies (#[trigger] t.spec_succs(bb)->0.contains(s)
                <==> succ_seq(unit@, bb, temporal).contains(s)) by {
                unit@.lemma_block_bound(bb.0);
                assert(succ@[bb.0 as int]@.contains(s) <==> succ_seq(unit@, Block(bb.0), temporal).contains(s));
            }
        }
        t
    }

    /// Compute the predecessor table of a function or process.
    pub fn new(unit: Unit) -> (t: Self)
        requires
            unit@.wf(),
            unit@.targets_inserted(),
        ensures
            t.wf(),
            t.describes(unit@, false),
    {
        Self::compute(unit, false)
    }

    /// Compute the temporal predecessor table of a process.
    ///
    /// This table leaves out the edges of the control flow graph that leave a
    /// temporal instruction, so all blocks connected in it execute within
    /// the same instant of time.
    pub fn new_temporal(unit: Unit) -> (t: Self)
        requires
            unit@.wf(),
            unit@.targets_inserted(),
        ensures
            t.wf(),
            t.describes(unit@, true),
    {
        Self::compute(unit, true)
    }

    /// Get the predecessors of a block.
    pub fn pred_set(&self, bb: Block) -> (s: &Vec<Block>)
        requires
            self.wf(),
            self.spec_preds(bb) is Some,
        ensures
            s@ == self.spec_preds(bb)->0,
    {
        &self.pred[bb.0 as usize]
    }

    /// Get the successors of a block.
    pub fn succ_set(&self, bb: Block) -> (s: &Vec<Block>)
        requires
            self.wf(),
            self.spec_succs(bb) is Some,
        ensures
            s@ == self.spec_succs(bb)->0,
    {
        &self.succ[bb.0 as usize]
    }

    /// Get the predecessors of a block.
    pub fn pred(&self, bb: Block) -> (v: Vec<Block>)
        requires
            self.wf(),
            self.spec_preds(bb) is Some,
        ensures
            v@ == self.spec_preds(bb)->0,
    {
        self.pred[bb.0 as usize].clone()
    }

    /// Get the successors of a block.
    pub fn succ(&self, bb: Block) -> (v: Vec<Block>)
        requires
            self.wf(),
            self.spec_succs(bb) is Some,
        ensures
            v@ == self.spec_succs(bb)->0,
    {
        self.succ[bb.0 as usize].clone()
    }

    /// Check if a block is the sole predecessor of another block.
    pub fn is_sole_pred(&self, bb: Block, pred_of: Block) -> (r: bool)
        requires
            self.wf(),
            self.spec_preds(pred_of) is Some,
        ensures
            r == (forall|x: Block| #[trigger] self.spec_preds(pred_of)->0.contains(x) ==> x == bb),
    {
        assert(self.spec_preds(pred_of)->0 == self.pred@[pred_of.0 as int]@);
        all_equal(&self.pred[pred_of.0 as usize], bb)
    }

    /// Check if a block is the sole successor of another block.
    pub fn is_sole_succ(&self, bb: Block, succ_of: Block) -> (r: bool)
        requires
            self.wf(),
            self.spec_succs(succ_of) is Some,
        ensures
            r == (forall|x: Block| #[trigger] self.spec_succs(succ_of)->0.contains(x) ==> x == bb),
    {
        assert(self.spec_succs(succ_of)->0 == self.succ@[succ_of.0 as int]@);
        all_equal(&self.succ[succ_of.0 as usize], bb)
    }
}

/// Every element of `v` is `bb`.
fn all_equal(v: &Vec<Block>, bb: Block) -> (r: bool)
    ensures
        r == (forall|x: Block| #[trigger] v@.contains(x) ==> x == bb),
{
    let mut k: usize = 0;
    while k < v.len()
        invariant
            k <= v@.len(),
            forall|j: int| 0 <= j < k ==> v@[j] == bb,
        decreases v@.len() - k,
    {
        if v[k] != bb {
            proof {
                assert(v@.contains(v@[k as int]));
            }
            return false;
        }
        k = k + 1;
    }
    true
}


/// # Analyses
impl<'a> Unit<'a> {
    /// Compute the unit's block predecessor table.
    pub fn predtbl(self) -> (t: PredecessorTable)
        requires
            self@.wf(),
            self@.targets_inserted(),
        ensures
            t.wf(),
            t.describes(self@, false),
    {
        PredecessorTable::new(self)
    }

    /// Compute the unit's temporal block predecessor table, which leaves
    /// out the edges that leave temporal instructions.
    pub fn temporal_predtbl(self) -> (t: PredecessorTable)
        requires
            self@.wf(),
            self@.targets_inserted(),
        ensures
            t.wf(),
            t.describes(self@, true),
    {
        PredecessorTable::new_temporal(self)
    }
}

} // verus!
