//! Temporal regions of a process: the groups of blocks that execute within
//! the same instant of time.

use crate::analysis::domtree::lemma_bounded_distinct;
use crate::analysis::preds::{contains_block, is_pred, succ_seq, PredecessorTable};
use crate::ir::inst::{is_temporal_op, InstData};
use crate::ir::keys::{Block, Inst};
use crate::ir::layout::as_blocks;
use crate::ir::unit::{Unit, UnitData};
use vstd::prelude::*;

verus! {

/// The instruction that ends an inserted block.
pub open spec fn term_data(d: UnitData, b: Block) -> InstData {
    d.spec_inst(Inst(d.inst_ids(b).last()))->0
}

/// The block ends in a temporal instruction.
pub open spec fn ends_temporal(d: UnitData, b: Block) -> bool {
    is_temporal_op(term_data(d, b).spec_opcode())
}

/// The targets of the temporal instructions that end the listed blocks, in
/// order.
pub open spec fn temporal_targets(d: UnitData, ids: Seq<u32>) -> Seq<Block>
    decreases ids.len(),
{
    if ids.len() == 0 {
        Seq::empty()
    } else {
        temporal_targets(d, ids.drop_last()) + if ends_temporal(d, Block(ids.last())) {
            term_data(d, Block(ids.last())).spec_blocks()
        } else {
            Seq::empty()
        }
    }
}

/// The elements of a sequence in order of first appearance, each once.
pub open spec fn dedup(s: Seq<Block>) -> Seq<Block>
    decreases s.len(),
{
    if s.len() == 0 {
        Seq::empty()
    } else {
        let r = dedup(s.drop_last());
        if r.contains(s.last()) {
            r
        } else {
            r.push(s.last())
        }
    }
}

/// Removing repetitions keeps exactly the elements, each once.
proof fn lemma_dedup(s: Seq<Block>)
    ensures
        dedup(s).no_duplicates(),
        forall|x: Block| #[trigger] dedup(s).contains(x) <==> s.contains(x),
    decreases s.len(),
{
    if s.len() > 0 {
        lemma_dedup(s.drop_last());
        let r = dedup(s.drop_last());
        assert forall|x: Block| #[trigger] dedup(s).contains(x) <==> s.contains(x) by {
            if s.drop_last().contains(x) {
                let j = choose|j: int| 0 <= j < s.drop_last().len() && s.drop_last()[j] == x;
                assert(s[j] == x);
            }
            if s.contains(x) && x != s.last() {
                let j = choose|j: int| 0 <= j < s.len() && s[j] == x;
                assert(s.drop_last()[j] == x);
            }
            if !r.contains(s.last()) {
                let o = r.push(s.last());
                if r.contains(x) {
                    let j = choose|j: int| 0 <= j < r.len() && r[j] == x;
                    assert(o[j] == x);
                }
                if o.contains(x) && x != s.last() {
                    let j = choose|j: int| 0 <= j < o.len() && o[j] == x;
                    assert(r[j] == x);
                }
                assert(o[r.len() as int] == s.last());
            }
            assert(s[s.len() - 1] == s.last());
        }
        if !r.contains(s.last()) {
            let o = r.push(s.last());
            assert forall|a: int, b: int| 0 <= a < b < o.len() implies o[a] != o[b] by {
                if b == r.len() {
                    assert(r.contains(o[a]));
                }
            }
        }
    }
}

/// The blocks a temporal region starts from: the entry block, then the
/// targets of temporal instructions in layout order, each once.
pub open spec fn trg_roots(d: UnitData) -> Seq<Block> {
    dedup(seq![Block(d.block_ids()[0])] + temporal_targets(d, d.block_ids()))
}

/// The unit can be split into temporal regions: it has an entry, every
/// block ends in an instruction, and branches only go to inserted blocks.
pub open spec fn trg_input(d: UnitData) -> bool {
    &&& d.wf()
    &&& d.block_ids().len() > 0
    &&& d.blocks_terminated()
    &&& d.targets_inserted()
}


/// A set of blocks that holds the roots, and the targets of each member
/// that does not end in a temporal instruction.
#[verifier::opaque]
pub open spec fn trg_closed(d: UnitData, s: Set<u32>) -> bool {
    &&& forall|r: Block| #[trigger] trg_roots(d).contains(r) ==> s.contains(r.0)
    &&& forall|b: u32, x: Block| s.contains(b) && !ends_temporal(d, Block(b)) && #[trigger] term_data(d, Block(b)).spec_blocks().contains(x)
        ==> #[trigger] s.contains(x.0)
}

/// The block can be reached from a root without crossing a temporal
/// instruction: every closed set holds it.
#[verifier::opaque]
pub open spec fn trg_reachable(d: UnitData, b: u32) -> bool {
    forall|s: Set<u32>| #[trigger] trg_closed(d, s) ==> s.contains(b)
}

/// The block at position `i` of `order` is reached from an earlier block
/// of the same region that branches to it without a temporal instruction.
pub open spec fn has_parent(d: UnitData, order: Seq<Block>, region: Seq<usize>, i: int) -> bool {
    exists|j: int|
        0 <= j < i && !ends_temporal(d, #[trigger] order[j]) && term_data(d, order[j]).spec_blocks().contains(order[i])
            && region[order[j].0 as int] == region[order[i].0 as int]
}

/// `order` lists the reachable blocks, roots first, and `region` assigns
/// each of them one of the regions, the `k`-th root region `k`; every
/// other block joins the region of an earlier block that branches to it
/// without a temporal instruction.
pub open spec fn assign_ok(d: UnitData, order: Seq<Block>, region: Seq<usize>) -> bool {
    &&& region.len() == d.block_bound()
    &&& order.no_duplicates()
    &&& forall|b: Block| #[trigger] order.contains(b) <==> trg_reachable(d, b.0)
    &&& forall|b: Block| #[trigger] order.contains(b) ==> d.block_ids().contains(b.0)
    &&& forall|x: int| 0 <= x < region.len() ==> (#[trigger] region[x] != usize::MAX <==> order.contains(Block(x as u32)))
    &&& trg_roots(d).len() <= order.len()
    &&& forall|k: int| 0 <= k < trg_roots(d).len() ==> #[trigger] order[k] == trg_roots(d)[k] && region[order[k].0 as int]
        == k
    &&& forall|i: int| 0 <= i < order.len() ==> region[(#[trigger] order[i]).0 as int] < trg_roots(d).len()
    &&& forall|i: int| trg_roots(d).len() <= i < order.len() ==> #[trigger] has_parent(d, order, region, i)
}

/// The targets of the instruction that ends `bb`, if it is temporal.
fn temporal_targets_of(unit: Unit, bb: Block) -> (v: Vec<Block>)
    requires
        trg_input(unit@),
        unit@.block_ids().contains(bb.0),
    ensures
        v@ == (if ends_temporal(unit@, bb) {
            term_data(unit@, bb).spec_blocks()
        } else {
            Seq::empty()
        }),
{
    let term = unit.terminator(bb);
    proof {
        unit@.lemma_placed_exists(bb.0, term.0);
    }
    let data = unit.inst_data(term);
    if data.opcode().is_temporal() {
        data.blocks()
    } else {
        Vec::new()
    }
}

/// The targets of the instruction that ends `bb`.
fn targets_of(unit: Unit, bb: Block) -> (v: Vec<Block>)
    requires
        trg_input(unit@),
        unit@.block_ids().contains(bb.0),
    ensures
        v@ == term_data(unit@, bb).spec_blocks(),
        ends_temporal(unit@, bb) == is_temporal_op(unit@.spec_inst(Inst(unit@.inst_ids(bb).last()))->0.spec_opcode()),
        forall|x: Block| #[trigger] v@.contains(x) ==> unit@.block_ids().contains(x.0),
{
    let term = unit.terminator(bb);
    proof {
        unit@.lemma_placed_exists(bb.0, term.0);
    }
    let data = unit.inst_data(term);
    let v = data.blocks();
    proof {
        assert(unit@.branches_inserted(bb.0));
        assert forall|x: Block| #[trigger] v@.contains(x) implies unit@.block_ids().contains(x.0) by {
            let k = choose|k: int| 0 <= k < v@.len() && v@[k] == x;
        }
    }
    v
}

/// The targets of a terminator are inserted blocks.
proof fn lemma_targets_inserted(d: UnitData, b: Block, x: Block)
    requires
        trg_input(d),
        d.block_ids().contains(b.0),
        term_data(d, b).spec_blocks().contains(x),
    ensures
        d.block_ids().contains(x.0),
{
    assert(d.branches_inserted(b.0));
    let k = choose|k: int| 0 <= k < term_data(d, b).spec_blocks().len() && term_data(d, b).spec_blocks()[k] == x;
}

/// The roots of the temporal regions, and a table of which roots have
/// been seen.
fn region_roots(unit: Unit) -> (r: (Vec<Block>, Vec<bool>))
    requires
        trg_input(unit@),
    ensures
        r.0@ == trg_roots(unit@),
        r.1@.len() == unit@.block_bound(),
        forall|x: int| 0 <= x < unit@.block_bound() ==> (#[trigger] r.1@[x] <==> r.0@.contains(Block(x as u32))),
{
    let ghost d = unit@;
    let bound = unit.block_id_bound();
    let mut seen: Vec<bool> = Vec::new();
    let mut k: usize = 0;
    while k < bound
        invariant
            k <= bound,
            seen@.len() == k,
            forall|x: int| 0 <= x < k ==> !#[trigger] seen@[x],
        decreases bound - k,
    {
        seen.push(false);
        k = k + 1;
    }
    let entry = unit.entry();
    proof {
        d.lemma_block_bound(entry.0);
        assert(d.block_ids().contains(entry.0));
    }
    let mut todo: Vec<Block> = Vec::new();
    todo.push(entry);
    seen.set(entry.0 as usize, true);
    let bbs = unit.blocks();
    let ghost ids = d.block_ids();
    let ghost head = seq![entry];
    proof {
        assert(dedup(head) =~= seq![entry]) by {
            assert(head.drop_last() =~= Seq::<Block>::empty());
            assert(dedup(head.drop_last()) =~= Seq::<Block>::empty());
        }
        assert(temporal_targets(d, ids.subrange(0, 0)) =~= Seq::<Block>::empty());
        assert(head + temporal_targets(d, ids.subrange(0, 0)) =~= head);
        assert forall|x: int| 0 <= x < bound implies (#[trigger] seen@[x] <==> todo@.contains(Block(x as u32))) by {
            if x == entry.0 as int {
                assert(todo@[0] == entry);
            }
            if todo@.contains(Block(x as u32)) {
                assert(todo@[0] == Block(x as u32));
            }
        }
    }
    let mut k: usize = 0;
    while k < bbs.len()
        invariant
            trg_input(d),
            d == unit@,
            ids == d.block_ids(),
            bbs@ == as_blocks(ids),
            head == seq![Block(ids[0])],
            bound == d.block_bound(),
            k <= bbs@.len(),
            seen@.len() == bound,
            todo@ == dedup(head + temporal_targets(d, ids.subrange(0, k as int))),
            forall|x: int| 0 <= x < bound ==> (#[trigger] seen@[x] <==> todo@.contains(Block(x as u32))),
        decreases bbs@.len() - k,
    {
        let bb = bbs[k];
        proof {
            assert(ids[k as int] == bb.0);
            assert(ids.contains(bb.0));
        }
        let targets = temporal_targets_of(unit, bb);
        let ghost prefix = head + temporal_targets(d, ids.subrange(0, k as int));
        let mut j: usize = 0;
        while j < targets.len()
            invariant
                trg_input(d),
                d == unit@,
                bound == d.block_bound(),
                d.block_ids().contains(bb.0),
                targets@ == (if ends_temporal(d, bb) {
                    term_data(d, bb).spec_blocks()
                } else {
                    Seq::empty()
                }),
                j <= targets@.len(),
                seen@.len() == bound,
                todo@ == dedup(prefix + targets@.subrange(0, j as int)),
                forall|x: int| 0 <= x < bound ==> (#[trigger] seen@[x] <==> todo@.contains(Block(x as u32))),
            decreases targets@.len() - j,
        {
            let t = targets[j];
            proof {
                assert(targets@.contains(t));
                lemma_targets_inserted(d, bb, t);
                d.lemma_block_bound(t.0);
                let s0 = prefix + targets@.subrange(0, j as int);
                let s1 = prefix + targets@.subrange(0, j + 1);
                assert(s1.drop_last() =~= s0);
                assert(s1.last() == t);
                lemma_dedup(s0);
            }
            let ghost before = todo@;
            if !seen[t.0 as usize] {
                seen.set(t.0 as usize, true);
                todo.push(t);
            }
            proof {
                assert forall|x: int| 0 <= x < bound implies (#[trigger] seen@[x] <==> todo@.contains(Block(x as u32))) by {
                    if before.contains(Block(x as u32)) {
                        let w = choose|w: int| 0 <= w < before.len() && before[w] == Block(x as u32);
                        assert(todo@[w] == Block(x as u32));
                    }
                    if todo@.contains(Block(x as u32)) && Block(x as u32) != t {
                        let w = choose|w: int| 0 <= w < todo@.len() && todo@[w] == Block(x as u32);
                        if w < before.len() {
                            assert(before[w] == Block(x as u32));
                        }
                    }
                    if x == t.0 as int && todo@.len() > before.len() {
                        assert(todo@[before.len() as int] == t);
                    }
                }
            }
            j = j + 1;
        }
        proof {
            let s1 = ids.subrange(0, k + 1);
            assert(s1.drop_last() =~= ids.subrange(0, k as int));
            assert(s1.last() == bb.0);
            assert(targets@.subrange(0, j as int) =~= targets@);
            assert(prefix + targets@ =~= head + temporal_targets(d, s1));
        }
        k = k + 1;
    }
    proof {
        assert(ids.subrange(0, k as int) =~= ids);
    }
    (todo, seen)
}


/// Whether the instruction that ends `bb` is temporal.
fn block_ends_temporal(unit: Unit, bb: Block) -> (b: bool)
    requires
        trg_input(unit@),
        unit@.block_ids().contains(bb.0),
    ensures
        b == ends_temporal(unit@, bb),
{
    let term = unit.terminator(bb);
    proof {
        unit@.lemma_placed_exists(bb.0, term.0);
    }
    unit.inst_data(term).opcode().is_temporal()
}

/// The reachable blocks in the order a breadth-first search from the roots
/// meets them, and the region each of them belongs to.
fn assign_regions(unit: Unit) -> (r: (Vec<Block>, Vec<usize>, usize))
    requires
        trg_input(unit@),
    ensures
        assign_ok(unit@, r.0@, r.1@),
        r.2 == trg_roots(unit@).len(),
{
    let ghost d = unit@;
    let bound = unit.block_id_bound();
    let (mut todo, mut seen) = region_roots(unit);
    let ghost roots = trg_roots(d);
    let nroots = todo.len();
    let mut region: Vec<usize> = Vec::new();
    let mut k: usize = 0;
    while k < bound
        invariant
            k <= bound,
            region@.len() == k,
            forall|x: int| 0 <= x < k ==> #[trigger] region@[x] == usize::MAX,
        decreases bound - k,
    {
        region.push(usize::MAX);
        k = k + 1;
    }
    proof {
        lemma_dedup(seq![Block(d.block_ids()[0])] + temporal_targets(d, d.block_ids()));
        assert forall|b: Block| #[trigger] todo@.contains(b) implies d.block_ids().contains(b.0) by {
            assert(roots.contains(b));
            lemma_root_inserted(d, b);
        }
    }
    let mut i: usize = 0;
    while i < nroots
        invariant
            trg_input(d),
            d == unit@,
            bound == d.block_bound(),
            todo@ == roots,
            roots == trg_roots(d),
            nroots == roots.len(),
            roots.no_duplicates(),
            forall|b: Block| #[trigger] todo@.contains(b) ==> d.block_ids().contains(b.0),
            i <= nroots,
            region@.len() == bound,
            forall|x: int| 0 <= x < bound ==> (#[trigger] region@[x] != usize::MAX <==> todo@.subrange(0, i as int).contains(
                Block(x as u32),
            )),
            forall|k: int| 0 <= k < i ==> region@[(#[trigger] todo@[k]).0 as int] == k,
        decreases nroots - i,
    {
        let bb = todo[i];
        proof {
            assert(todo@.contains(bb));
            d.lemma_block_bound(bb.0);
        }
        let ghost before = region@;
        region.set(bb.0 as usize, i);
        proof {
            let t1 = todo@.subrange(0, i + 1);
            let t0 = todo@.subrange(0, i as int);
            assert forall|x: int| 0 <= x < bound implies (#[trigger] region@[x] != usize::MAX <==> t1.contains(Block(x as u32))) by {
                if t0.contains(Block(x as u32)) {
                    let w = choose|w: int| 0 <= w < t0.len() && t0[w] == Block(x as u32);
                    assert(t1[w] == Block(x as u32));
                }
                if t1.contains(Block(x as u32)) {
                    let w = choose|w: int| 0 <= w < t1.len() && t1[w] == Block(x as u32);
                    if w < i {
                        assert(t0[w] == Block(x as u32));
                    }
                }
                assert(t1[i as int] == bb);
            }
            assert forall|k: int| 0 <= k < i + 1 implies region@[(#[trigger] todo@[k]).0 as int] == k by {
                if k < i {
                    assert(todo@[k] != todo@[i as int]);
                    assert(todo@[k].0 != bb.0);
                    assert(todo@.contains(todo@[k]));
                    d.lemma_block_bound(todo@[k].0);
                    assert(region@[todo@[k].0 as int] == before[todo@[k].0 as int]);
                }
            }
        }
        i = i + 1;
    }
    proof {
        assert(todo@.subrange(0, i as int) =~= todo@);
        assert(todo@.len() <= bound) by {
            assert forall|k: int| 0 <= k < todo@.len() implies (#[trigger] todo@[k]).0 < bound by {
                assert(todo@.contains(todo@[k]));
                d.lemma_block_bound(todo@[k].0);
            }
            lemma_bounded_distinct(todo@, bound as nat);
        }
    }
    proof {
        reveal(bfs_core);
        reveal(closed_upto);
        assert(bfs_core(d, roots, todo@, region@, seen@)) by {
            assert forall|b: Block| #[trigger] todo@.contains(b) implies d.block_ids().contains(b.0) && trg_reachable(d, b.0) by {
                assert(roots.contains(b));
                lemma_root_inserted(d, b);
                lemma_root_reachable(d, b);
            }
            assert forall|x: int| 0 <= x < bound implies (#[trigger] region@[x] != usize::MAX <==> todo@.contains(Block(x as u32))) by {
                assert(todo@.subrange(0, nroots as int) =~= todo@);
            }
            assert forall|k: int| 0 <= k < todo@.len() implies region@[(#[trigger] todo@[k]).0 as int] < roots.len() by {}
        }
        assert(closed_upto(d, todo@, 0));
    }
    let mut front: usize = 0;
    while front < todo.len()
        invariant
            trg_input(d),
            d == unit@,
            bound == d.block_bound(),
            roots == trg_roots(d),
            nroots == roots.len(),
            front <= todo@.len(),
            todo@.len() <= bound,
            bfs_core(d, roots, todo@, region@, seen@),
            closed_upto(d, todo@, front as int),
            forall|i: int| roots.len() <= i < todo@.len() ==> #[trigger] has_parent(d, todo@, region@, i),
        decreases bound - front,
    {
        let bb = todo[front];
        proof {
            assert(todo@.contains(bb));
            lemma_bfs_read(d, roots, todo@, region@, seen@, bb);
            d.lemma_block_bound(bb.0);
        }
        let tr = region[bb.0 as usize];
        let ghost fr: int = front as int;
        front = front + 1;
        if !block_ends_temporal(unit, bb) {
            let targets = targets_of(unit, bb);
            let mut j: usize = 0;
            while j < targets.len()
                invariant
                    trg_input(d),
                    d == unit@,
                    bound == d.block_bound(),
                    roots == trg_roots(d),
                    0 <= fr < front <= todo@.len(),
                    todo@.len() <= bound,
                    todo@[fr] == bb,
                    !ends_temporal(d, bb),
                    tr == region@[bb.0 as int],
                    targets@ == term_data(d, bb).spec_blocks(),
                    forall|x: Block| #[trigger] targets@.contains(x) ==> d.block_ids().contains(x.0),
                    j <= targets@.len(),
                    bfs_core(d, roots, todo@, region@, seen@),
                    closed_upto(d, todo@, fr),
                    forall|i: int| roots.len() <= i < todo@.len() ==> #[trigger] has_parent(d, todo@, region@, i),
                    forall|k: int| 0 <= k < j ==> todo@.contains(#[trigger] targets@[k]),
                decreases targets@.len() - j,
            {
                let t = targets[j];
                proof {
                    assert(targets@.contains(t));
                    d.lemma_block_bound(t.0);
                    lemma_bfs_read(d, roots, todo@, region@, seen@, t);
                }
                let ghost before = todo@;
                if !seen[t.0 as usize] {
                    proof {
                        lemma_bfs_push(d, roots, todo@, region@, seen@, fr, t);
                        reveal(bfs_core);
                        assert forall|k: int| 0 <= k < todo@.len() implies (#[trigger] todo@[k]).0 < region@.len() by {
                            assert(todo@.contains(todo@[k]));
                            d.lemma_block_bound(todo@[k].0);
                        }
                        lemma_parents_push(d, roots.len() as int, todo@, region@, fr, t);
                    }
                    seen.set(t.0 as usize, true);
                    todo.push(t);
                    region.set(t.0 as usize, tr);
                }
                proof {
                    assert forall|k: int| 0 <= k < j + 1 implies todo@.contains(#[trigger] targets@[k]) by {
                        if k < j {
                            let w = choose|w: int| 0 <= w < before.len() && before[w] == targets@[k];
                            assert(todo@[w] == targets@[k]);
                        } else if todo@.len() > before.len() {
                            assert(todo@[todo@.len() - 1] == t);
                        } else {
                            assert(seen@[t.0 as int]);
                        }
                    }
                }
                j = j + 1;
            }
            proof {
                reveal(closed_upto);
                assert forall|jj: int, x: Block| 0 <= jj < front && !ends_temporal(d, #[trigger] todo@[jj]) && #[trigger] term_data(
                    d,
                    todo@[jj],
                ).spec_blocks().contains(x) implies todo@.contains(x) by {
                    if jj == fr {
                        let k = choose|k: int| 0 <= k < targets@.len() && targets@[k] == x;
                    }
                }
            }
        } else {
            proof {
                reveal(closed_upto);
            }
        }
    }
    proof {
        reveal(bfs_core);
        reveal(closed_upto);
        let st = Set::new(|x: u32| todo@.contains(Block(x)));
        assert(trg_closed(d, st)) by {
            reveal(trg_closed);
            assert forall|r: Block| #[trigger] trg_roots(d).contains(r) implies st.contains(r.0) by {
                let k = choose|k: int| 0 <= k < roots.len() && roots[k] == r;
                assert(todo@[k] == r);
            }
            assert forall|b: u32, x: Block| st.contains(b) && !ends_temporal(d, Block(b)) && #[trigger] term_data(d, Block(b)).spec_blocks().contains(x)
                implies #[trigger] st.contains(x.0) by {
                let w = choose|w: int| 0 <= w < todo@.len() && todo@[w] == Block(b);
                assert(Block(x.0) == x);
            }
        }
        assert forall|b: Block| #[trigger] todo@.contains(b) <==> trg_reachable(d, b.0) by {
            if trg_reachable(d, b.0) {
                reveal(trg_reachable);
                assert(st.contains(b.0));
            }
        }
    }
    (todo, region, nroots)
}

/// Every root is an inserted block.
proof fn lemma_root_inserted(d: UnitData, r: Block)
    requires
        trg_input(d),
        trg_roots(d).contains(r),
    ensures
        d.block_ids().contains(r.0),
{
    let s = seq![Block(d.block_ids()[0])] + temporal_targets(d, d.block_ids());
    lemma_dedup(s);
    let j = choose|j: int| 0 <= j < s.len() && s[j] == r;
    if j == 0 {
        assert(d.block_ids().contains(d.block_ids()[0]));
    } else {
        assert(temporal_targets(d, d.block_ids()).contains(r));
        lemma_temporal_targets_inserted(d, d.block_ids(), r);
    }
}

/// The targets of temporal instructions of inserted blocks are inserted.
proof fn lemma_temporal_targets_inserted(d: UnitData, ids: Seq<u32>, r: Block)
    requires
        trg_input(d),
        forall|k: int| 0 <= k < ids.len() ==> d.block_ids().contains(#[trigger] ids[k]),
        temporal_targets(d, ids).contains(r),
    ensures
        d.block_ids().contains(r.0),
    decreases ids.len(),
{
    let rest = temporal_targets(d, ids.drop_last());
    let tail = if ends_temporal(d, Block(ids.last())) {
        term_data(d, Block(ids.last())).spec_blocks()
    } else {
        Seq::empty()
    };
    let j = choose|j: int| 0 <= j < (rest + tail).len() && (rest + tail)[j] == r;
    if j < rest.len() {
        assert(rest[j] == r);
        lemma_temporal_targets_inserted(d, ids.drop_last(), r);
    } else {
        assert(tail[j - rest.len()] == r);
        assert(d.block_ids().contains(ids[ids.len() - 1]));
        lemma_targets_inserted(d, Block(ids.last()), r);
    }
}


/// The state of the breadth-first search over the regions.
#[verifier::opaque]
spec fn bfs_core(d: UnitData, roots: Seq<Block>, todo: Seq<Block>, region: Seq<usize>, seen: Seq<bool>) -> bool {
    &&& roots.len() <= todo.len()
    &&& todo.no_duplicates()
    &&& forall|k: int| 0 <= k < roots.len() ==> #[trigger] todo[k] == roots[k] && region[todo[k].0 as int] == k
    &&& forall|b: Block| #[trigger] todo.contains(b) ==> d.block_ids().contains(b.0) && trg_reachable(d, b.0)
    &&& seen.len() == d.block_bound()
    &&& region.len() == d.block_bound()
    &&& forall|x: int| 0 <= x < d.block_bound() ==> (#[trigger] seen[x] <==> todo.contains(Block(x as u32)))
    &&& forall|x: int| 0 <= x < d.block_bound() ==> (#[trigger] region[x] != usize::MAX <==> todo.contains(Block(x as u32)))
    &&& forall|k: int| 0 <= k < todo.len() ==> region[(#[trigger] todo[k]).0 as int] < roots.len()
}

/// The first `n` blocks of the search have had their successors queued.
#[verifier::opaque]
spec fn closed_upto(d: UnitData, todo: Seq<Block>, n: int) -> bool {
    forall|jj: int, x: Block| 0 <= jj < n && !ends_temporal(d, #[trigger] todo[jj]) && #[trigger] term_data(d, todo[jj]).spec_blocks().contains(x)
        ==> todo.contains(x)
}

/// The roots can be reached.
proof fn lemma_root_reachable(d: UnitData, r: Block)
    requires
        trg_roots(d).contains(r),
    ensures
        trg_reachable(d, r.0),
{
    reveal(trg_reachable);
    assert forall|st: Set<u32>| #[trigger] trg_closed(d, st) implies st.contains(r.0) by {
        reveal(trg_closed);
    }
}

/// The targets of a reachable block that does not end in a temporal
/// instruction can be reached.
proof fn lemma_step_reachable(d: UnitData, b: Block, x: Block)
    requires
        trg_reachable(d, b.0),
        !ends_temporal(d, b),
        term_data(d, b).spec_blocks().contains(x),
    ensures
        trg_reachable(d, x.0),
{
    reveal(trg_reachable);
    assert forall|st: Set<u32>| #[trigger] trg_closed(d, st) implies st.contains(x.0) by {
        reveal(trg_closed);
        assert(st.contains(b.0));
        assert(Block(b.0) == b);
    }
}

/// What the search state says of one block.
proof fn lemma_bfs_read(d: UnitData, roots: Seq<Block>, todo: Seq<Block>, region: Seq<usize>, seen: Seq<bool>, b: Block)
    requires
        bfs_core(d, roots, todo, region, seen),
    ensures
        todo.contains(b) ==> d.block_ids().contains(b.0) && trg_reachable(d, b.0),
        (b.0 as int) < d.block_bound() ==> (seen[b.0 as int] <==> todo.contains(b)),
        seen.len() == d.block_bound(),
        region.len() == d.block_bound(),
        roots.len() <= todo.len(),
        todo.no_duplicates(),
        forall|k: int| 0 <= k < todo.len() ==> region[(#[trigger] todo[k]).0 as int] < roots.len(),
{
    reveal(bfs_core);
    assert(Block(b.0 as u32) == b);
}

/// Queueing an unseen target of the block being visited keeps the search
/// state consistent.
#[verifier::rlimit(30)]
proof fn lemma_bfs_push(d: UnitData, roots: Seq<Block>, todo: Seq<Block>, region: Seq<usize>, seen: Seq<bool>, fr: int, t: Block)
    requires
        trg_input(d),
        roots == trg_roots(d),
        bfs_core(d, roots, todo, region, seen),
        closed_upto(d, todo, fr),
        0 <= fr < todo.len(),
        !ends_temporal(d, todo[fr]),
        term_data(d, todo[fr]).spec_blocks().contains(t),
        d.block_ids().contains(t.0),
        !seen[t.0 as int],
        (t.0 as int) < d.block_bound(),
    ensures
        todo.len() + 1 <= d.block_bound(),
        bfs_core(
            d,
            roots,
            todo.push(t),
            region.update(t.0 as int, region[todo[fr].0 as int]),
            seen.update(t.0 as int, true),
        ),
        closed_upto(d, todo.push(t), fr),
        todo.push(t)[fr] == todo[fr],
        region.update(t.0 as int, region[todo[fr].0 as int])[todo[fr].0 as int] == region[todo[fr].0 as int],
{
    reveal(bfs_core);
    let bb = todo[fr];
    let after = todo.push(t);
    assert(!todo.contains(t));
    assert(todo.contains(bb));
    assert(bb.0 != t.0);
    assert(region.len() == d.block_bound());
    assert(d.block_ids().contains(bb.0));
    d.lemma_block_bound(bb.0);
    assert(region.update(t.0 as int, region[bb.0 as int])[bb.0 as int] == region[bb.0 as int]);
    lemma_bfs_push_basic(d, roots, todo, region, seen, fr, t);
    reveal(closed_upto);
    assert forall|jj: int, x: Block| 0 <= jj < fr && !ends_temporal(d, #[trigger] after[jj]) && #[trigger] term_data(d, after[jj]).spec_blocks().contains(x)
        implies after.contains(x) by {
        assert(after[jj] == todo[jj]);
        assert(todo.contains(x));
        let w = choose|w: int| 0 <= w < todo.len() && todo[w] == x;
        assert(after[w] == x);
    }
}

/// Queueing an unseen target with the region of the block it is reached
/// from keeps every non-root block joined to a parent.
proof fn lemma_parents_push(d: UnitData, n0: int, todo: Seq<Block>, region: Seq<usize>, fr: int, t: Block)
    requires
        0 <= n0 <= todo.len(),
        forall|i: int| n0 <= i < todo.len() ==> #[trigger] has_parent(d, todo, region, i),
        !todo.contains(t),
        0 <= fr < todo.len(),
        !ends_temporal(d, todo[fr]),
        term_data(d, todo[fr]).spec_blocks().contains(t),
        0 <= t.0 < region.len(),
        forall|k: int| 0 <= k < todo.len() ==> (#[trigger] todo[k]).0 < region.len(),
    ensures
        forall|i: int| n0 <= i < todo.push(t).len() ==> #[trigger] has_parent(
            d,
            todo.push(t),
            region.update(t.0 as int, region[todo[fr].0 as int]),
            i,
        ),
{
    let after = todo.push(t);
    let r1 = region.update(t.0 as int, region[todo[fr].0 as int]);
    assert forall|i: int| n0 <= i < after.len() implies #[trigger] has_parent(d, after, r1, i) by {
        if i == todo.len() {
            assert(todo[fr] != t);
            assert(after[fr] == todo[fr]);
            assert(r1[after[fr].0 as int] == r1[after[i].0 as int]);
        } else {
            assert(has_parent(d, todo, region, i));
            let j = choose|j: int|
                0 <= j < i && !ends_temporal(d, #[trigger] todo[j]) && term_data(d, todo[j]).spec_blocks().contains(todo[i])
                    && region[todo[j].0 as int] == region[todo[i].0 as int];
            assert(todo.contains(todo[j]) && todo.contains(todo[i]));
            assert(after[j] == todo[j] && after[i] == todo[i]);
            assert(todo[j].0 != t.0 && todo[i].0 != t.0);
            assert(r1[after[j].0 as int] == r1[after[i].0 as int]);
        }
    }
}

/// Queueing an unseen target: the lists and tables stay consistent.
#[verifier::rlimit(30)]
proof fn lemma_bfs_push_basic(d: UnitData, roots: Seq<Block>, todo: Seq<Block>, region: Seq<usize>, seen: Seq<bool>, fr: int, t: Block)
    requires
        trg_input(d),
        roots == trg_roots(d),
        bfs_core(d, roots, todo, region, seen),
        0 <= fr < todo.len(),
        !ends_temporal(d, todo[fr]),
        term_data(d, todo[fr]).spec_blocks().contains(t),
        d.block_ids().contains(t.0),
        !seen[t.0 as int],
        (t.0 as int) < d.block_bound(),
    ensures
        todo.len() + 1 <= d.block_bound(),
        todo.push(t).no_duplicates(),
        forall|b: Block| #[trigger] todo.push(t).contains(b) ==> d.block_ids().contains(b.0) && trg_reachable(d, b.0),
        forall|x: int| 0 <= x < d.block_bound() ==> (#[trigger] seen.update(t.0 as int, true)[x] <==> todo.push(t).contains(Block(x as u32))),
        forall|x: int| 0 <= x < d.block_bound() ==> (#[trigger] region.update(t.0 as int, region[todo[fr].0 as int])[x] != usize::MAX
            <==> todo.push(t).contains(Block(x as u32))),
        forall|k: int| 0 <= k < roots.len() ==> #[trigger] todo.push(t)[k] == roots[k] && region.update(t.0 as int, region[todo[fr].0 as int])[todo.push(t)[k].0 as int] == k,
        forall|k: int| 0 <= k < todo.push(t).len() ==> region.update(t.0 as int, region[todo[fr].0 as int])[(#[trigger] todo.push(t)[k]).0 as int] < roots.len(),
{
    reveal(bfs_core);
    let bb = todo[fr];
    let tr = region[bb.0 as int];
    let after = todo.push(t);
    let region1 = region.update(t.0 as int, tr);
    let seen1 = seen.update(t.0 as int, true);
    let bound = d.block_bound();
    assert(!todo.contains(t));
    assert(todo.contains(bb));
    assert(after.no_duplicates()) by {
        assert forall|a: int, b: int| 0 <= a < b < after.len() implies after[a] != after[b] by {
            if b == todo.len() {
                assert(todo.contains(after[a]));
            }
        }
    }
    assert(after.len() <= bound) by {
        assert forall|k: int| 0 <= k < after.len() implies (#[trigger] after[k]).0 < bound by {
            if k < todo.len() {
                assert(todo.contains(todo[k]));
                d.lemma_block_bound(todo[k].0);
            }
        }
        lemma_bounded_distinct(after, bound);
    }
    assert(after[after.len() - 1] == t);
    d.lemma_block_bound(t.0);
    assert(trg_reachable(d, bb.0));
    lemma_step_reachable(d, bb, t);
    assert forall|b: Block| #[trigger] after.contains(b) implies d.block_ids().contains(b.0) && trg_reachable(d, b.0) by {
        if b != t {
            let w = choose|w: int| 0 <= w < after.len() && after[w] == b;
            assert(todo[w] == b);
            assert(todo.contains(b));
        }
    }
    assert forall|x: int| 0 <= x < bound implies (#[trigger] seen1[x] <==> after.contains(Block(x as u32))) by {
        if x != t.0 as int {
            assert(seen1[x] == seen[x]);
            assert(Block(x as u32) != t);
        }
        if todo.contains(Block(x as u32)) {
            let w = choose|w: int| 0 <= w < todo.len() && todo[w] == Block(x as u32);
            assert(after[w] == Block(x as u32));
        }
        if after.contains(Block(x as u32)) && Block(x as u32) != t {
            let w = choose|w: int| 0 <= w < after.len() && after[w] == Block(x as u32);
            assert(todo[w] == Block(x as u32));
        }
    }
    assert forall|x: int| 0 <= x < bound implies (#[trigger] region1[x] != usize::MAX <==> after.contains(Block(x as u32))) by {
        if todo.contains(Block(x as u32)) {
            let w = choose|w: int| 0 <= w < todo.len() && todo[w] == Block(x as u32);
            assert(after[w] == Block(x as u32));
        }
        if after.contains(Block(x as u32)) && Block(x as u32) != t {
            let w = choose|w: int| 0 <= w < after.len() && after[w] == Block(x as u32);
            assert(todo[w] == Block(x as u32));
        }
        assert(tr < roots.len());
    }
    assert forall|k: int| 0 <= k < roots.len() implies #[trigger] after[k] == roots[k] && region1[after[k].0 as int] == k by {
        assert(after[k] == todo[k]);
        assert(todo.contains(todo[k]));
        assert(todo[k].0 != t.0);
        d.lemma_block_bound(todo[k].0);
        assert(region1[todo[k].0 as int] == region[todo[k].0 as int]);
    }
    assert forall|k: int| 0 <= k < after.len() implies region1[(#[trigger] after[k]).0 as int] < roots.len() by {
        if k < todo.len() {
            assert(after[k] == todo[k]);
            assert(todo.contains(todo[k]));
            assert(todo[k].0 != t.0);
            d.lemma_block_bound(todo[k].0);
            assert(region1[todo[k].0 as int] == region[todo[k].0 as int]);
        } else {
            assert(after[k] == t);
            assert(region1[t.0 as int] == tr);
        }
    }
}


/// A unique identifier for a temporal region.
#[derive(Clone, Copy, PartialEq, Eq, Structural, Hash, Debug, PartialOrd, Ord)]
pub struct TemporalRegion(pub usize);

/// Data associated with a temporal region.
pub struct TemporalRegionData {
    /// The unique identifier for this region.
    pub id: TemporalRegion,
    /// The blocks in this region.
    pub blocks: Vec<Block>,
    /// Whether this is the initial temporal region upon entering the process.
    pub entry: bool,
    /// The instructions that end blocks outside this region and branch into
    /// it.
    pub head_insts: Vec<Inst>,
    /// The entry blocks into this region.
    pub head_blocks: Vec<Block>,
    /// The head blocks are only reachable via branches from *other* regions.
    pub head_tight: bool,
    /// The instructions that end blocks of this region and branch out of it.
    pub tail_insts: Vec<Inst>,
    /// The exit blocks out of this region.
    pub tail_blocks: Vec<Block>,
    /// The tail blocks only branch to *other* regions.
    pub tail_tight: bool,
}

/// The instruction that ends an inserted block.
pub open spec fn term_of(d: UnitData, b: Block) -> Inst {
    Inst(d.inst_ids(b).last())
}

/// `b` is a first block of its region: a root, or the target of a branch
/// from another region.
pub open spec fn heads_region(d: UnitData, region: Seq<usize>, b: Block) -> bool {
    trg_roots(d).contains(b) || exists|p: Block| #[trigger] is_pred(d, p, b, false) && region[p.0 as int] != region[b.0 as int]
}

/// Every branch into `b` comes from another region.
pub open spec fn entered_tightly(d: UnitData, region: Seq<usize>, b: Block) -> bool {
    forall|p: Block| #[trigger] is_pred(d, p, b, false) ==> region[p.0 as int] != region[b.0 as int]
}

/// `b` is a last block of its region: it ends in a temporal instruction, or
/// branches to another region.
pub open spec fn tails_region(d: UnitData, region: Seq<usize>, b: Block) -> bool {
    ends_temporal(d, b) || exists|x: Block| #[trigger] succ_seq(d, b, false).contains(x) && region[x.0 as int] != region[b.0 as int]
}

/// Every branch out of `b` goes to another region.
pub open spec fn left_tightly(d: UnitData, region: Seq<usize>, b: Block) -> bool {
    forall|x: Block| #[trigger] succ_seq(d, b, false).contains(x) ==> region[x.0 as int] != region[b.0 as int]
}

/// The region data holds what region `r` of the assignment is made of.
pub open spec fn region_ok(d: UnitData, order: Seq<Block>, region: Seq<usize>, r: int, rd: TemporalRegionData) -> bool {
    &&& rd.id == TemporalRegion(r as usize)
    &&& rd.entry == (r == 0)
    &&& rd.blocks@.no_duplicates()
    &&& forall|b: Block| #[trigger] rd.blocks@.contains(b) <==> order.contains(b) && region[b.0 as int] == r
    &&& rd.head_blocks@.no_duplicates()
    &&& forall|b: Block| #[trigger] rd.head_blocks@.contains(b) <==> order.contains(b) && region[b.0 as int] == r
        && heads_region(d, region, b)
    &&& rd.head_tight == forall|b: Block| #[trigger] rd.head_blocks@.contains(b) ==> entered_tightly(d, region, b)
    &&& rd.tail_blocks@.no_duplicates()
    &&& forall|b: Block| #[trigger] rd.tail_blocks@.contains(b) <==> order.contains(b) && region[b.0 as int] == r
        && tails_region(d, region, b)
    &&& rd.tail_tight == forall|b: Block| #[trigger] rd.tail_blocks@.contains(b) ==> left_tightly(d, region, b)
    &&& rd.head_insts@.no_duplicates()
    &&& forall|i: Inst| #[trigger] rd.head_insts@.contains(i) <==> exists|b: Block, p: Block|
        #![trigger is_pred(d, p, b, false), order.contains(b)]
        order.contains(b) && region[b.0 as int] == r && is_pred(d, p, b, false) && region[p.0 as int] != r && i == term_of(d, p)
    &&& rd.tail_insts@.no_duplicates()
    &&& forall|i: Inst| #[trigger] rd.tail_insts@.contains(i) <==> exists|b: Block|
        #![trigger order.contains(b)]
        order.contains(b) && region[b.0 as int] == r && i == term_of(d, b) && exists|x: Block| #[trigger] succ_seq(
            d,
            b,
            false,
        ).contains(x) && region[x.0 as int] != r
}

/// A data structure that temporally groups blocks and instructions.
pub struct TemporalRegionGraph {
    /// The region of each block, indexed by block id.
    blocks: Vec<usize>,
    /// The blocks in the order they were assigned a region.
    order: Vec<Block>,
    /// The regions.
    regions: Vec<TemporalRegionData>,
}

impl TemporalRegionGraph {
    /// The region of each block, indexed by block id; `usize::MAX` for none.
    pub closed spec fn spec_region(&self) -> Seq<usize> {
        self.blocks@
    }

    /// The blocks that have a region.
    pub closed spec fn spec_order(&self) -> Seq<Block> {
        self.order@
    }

    /// The regions.
    pub closed spec fn spec_regions(&self) -> Seq<TemporalRegionData> {
        self.regions@
    }

    /// The graph describes the temporal regions of `d`.
    pub open spec fn describes(&self, d: UnitData) -> bool {
        &&& assign_ok(d, self.spec_order(), self.spec_region())
        &&& self.spec_regions().len() == trg_roots(d).len()
        &&& forall|r: int| 0 <= r < self.spec_regions().len() ==> region_ok(d, self.spec_order(), self.spec_region(), r, #[trigger] self.spec_regions()[r])
    }
}


/// Every predecessor of a reachable block is reachable.
pub open spec fn preds_reachable(d: UnitData) -> bool {
    forall|b: Block, p: Block| trg_reachable(d, b.0) && #[trigger] is_pred(d, p, b, false) ==> trg_reachable(d, p.0)
}

/// Whether `bb` heads its region, and whether every branch into it comes
/// from another region.
fn head_info(pt: &PredecessorTable, region: &Vec<usize>, bb: Block, is_root: bool, Ghost(d): Ghost<UnitData>) -> (r: (bool, bool))
    requires
        pt.wf(),
        pt.describes(d, false),
        d.block_ids().contains(bb.0),
        region@.len() == d.block_bound(),
        forall|p: Block| #[trigger] is_pred(d, p, bb, false) ==> (p.0 as int) < d.block_bound(),
        (bb.0 as int) < d.block_bound(),
        is_root == trg_roots(d).contains(bb),
    ensures
        r.0 == heads_region(d, region@, bb),
        r.1 == entered_tightly(d, region@, bb),
{
    let preds = pt.pred(bb);
    let mut is_head = is_root;
    let mut tight = true;
    let mut j: usize = 0;
    while j < preds.len()
        invariant
            pt.describes(d, false),
            d.block_ids().contains(bb.0),
            preds@ == pt.spec_preds(bb)->0,
            region@.len() == d.block_bound(),
            forall|p: Block| #[trigger] is_pred(d, p, bb, false) ==> (p.0 as int) < d.block_bound(),
            (bb.0 as int) < d.block_bound(),
            j <= preds@.len(),
            is_head == (is_root || exists|k: int| 0 <= k < j && region@[(#[trigger] preds@[k]).0 as int] != region@[bb.0 as int]),
            tight == forall|k: int| 0 <= k < j ==> region@[(#[trigger] preds@[k]).0 as int] != region@[bb.0 as int],
        decreases preds@.len() - j,
    {
        let p = preds[j];
        proof {
            assert(preds@.contains(p));
            assert(is_pred(d, p, bb, false));
        }
        let diff = region[p.0 as usize] != region[bb.0 as usize];
        is_head = is_head || diff;
        tight = tight && diff;
        proof {
            if diff {
                assert(region@[preds@[j as int].0 as int] != region@[bb.0 as int]);
            }
            assert(is_head == (is_root || exists|k: int| 0 <= k < j + 1 && region@[(#[trigger] preds@[k]).0 as int] != region@[bb.0 as int])) by {
                if exists|k: int| 0 <= k < j + 1 && region@[(#[trigger] preds@[k]).0 as int] != region@[bb.0 as int] {
                    let k = choose|k: int| 0 <= k < j + 1 && region@[(#[trigger] preds@[k]).0 as int] != region@[bb.0 as int];
                    if k < j {
                        assert(exists|k: int| 0 <= k < j && region@[(#[trigger] preds@[k]).0 as int] != region@[bb.0 as int]);
                    }
                }
            }
        }
        j = j + 1;
    }
    proof {
        assert(heads_region(d, region@, bb) == is_head) by {
            if exists|p: Block| #[trigger] is_pred(d, p, bb, false) && region@[p.0 as int] != region@[bb.0 as int] {
                let p = choose|p: Block| #[trigger] is_pred(d, p, bb, false) && region@[p.0 as int] != region@[bb.0 as int];
                assert(preds@.contains(p));
                let k = choose|k: int| 0 <= k < preds@.len() && preds@[k] == p;
            }
            if exists|k: int| 0 <= k < j && region@[(#[trigger] preds@[k]).0 as int] != region@[bb.0 as int] {
                let k = choose|k: int| 0 <= k < j && region@[(#[trigger] preds@[k]).0 as int] != region@[bb.0 as int];
                assert(preds@.contains(preds@[k]));
                assert(is_pred(d, preds@[k], bb, false));
            }
        }
        assert(entered_tightly(d, region@, bb) == tight) by {
            if tight {
                assert forall|p: Block| #[trigger] is_pred(d, p, bb, false) implies region@[p.0 as int] != region@[bb.0 as int] by {
                    assert(preds@.contains(p));
                    let k = choose|k: int| 0 <= k < preds@.len() && preds@[k] == p;
                }
            } else {
                let k = choose|k: int| 0 <= k < j && !(region@[(#[trigger] preds@[k]).0 as int] != region@[bb.0 as int]);
                assert(preds@.contains(preds@[k]));
                assert(is_pred(d, preds@[k], bb, false));
            }
        }
    }
    (is_head, tight)
}

/// Whether `bb` ends its region, and whether every branch out of it goes
/// to another region.
fn tail_info(unit: Unit, region: &Vec<usize>, bb: Block) -> (r: (bool, bool, bool))
    requires
        trg_input(unit@),
        unit@.block_ids().contains(bb.0),
        region@.len() == unit@.block_bound(),
    ensures
        r.0 == tails_region(unit@, region@, bb),
        r.1 == left_tightly(unit@, region@, bb),
        r.2 == exists|x: Block| #[trigger] succ_seq(unit@, bb, false).contains(x) && region@[x.0 as int] != region@[bb.0 as int],
{
    let ghost d = unit@;
    let succs = targets_of(unit, bb);
    let temporal = block_ends_temporal(unit, bb);
    let mut is_tail = temporal;
    let mut leaves = false;
    let mut tight = true;
    proof {
        d.lemma_block_bound(bb.0);
        assert(succ_seq(d, bb, false) == term_data(d, bb).spec_blocks()) by {
            assert(d.inst_ids(bb).len() > 0);
        }
    }
    let mut j: usize = 0;
    while j < succs.len()
        invariant
            trg_input(d),
            d.block_ids().contains(bb.0),
            succs@ == succ_seq(d, bb, false),
            forall|x: Block| #[trigger] succs@.contains(x) ==> d.block_ids().contains(x.0),
            region@.len() == d.block_bound(),
            (bb.0 as int) < d.block_bound(),
            j <= succs@.len(),
            is_tail == (temporal || leaves),
            leaves == exists|k: int| 0 <= k < j && region@[(#[trigger] succs@[k]).0 as int] != region@[bb.0 as int],
            tight == forall|k: int| 0 <= k < j ==> region@[(#[trigger] succs@[k]).0 as int] != region@[bb.0 as int],
        decreases succs@.len() - j,
    {
        let x = succs[j];
        proof {
            assert(succs@.contains(x));
            d.lemma_block_bound(x.0);
        }
        let diff = region[x.0 as usize] != region[bb.0 as usize];
        is_tail = is_tail || diff;
        leaves = leaves || diff;
        tight = tight && diff;
        proof {
            if diff {
                assert(region@[succs@[j as int].0 as int] != region@[bb.0 as int]);
            }
            assert(leaves == exists|k: int| 0 <= k < j + 1 && region@[(#[trigger] succs@[k]).0 as int] != region@[bb.0 as int]) by {
                if exists|k: int| 0 <= k < j + 1 && region@[(#[trigger] succs@[k]).0 as int] != region@[bb.0 as int] {
                    let k = choose|k: int| 0 <= k < j + 1 && region@[(#[trigger] succs@[k]).0 as int] != region@[bb.0 as int];
                    if k < j {
                        assert(exists|k: int| 0 <= k < j && region@[(#[trigger] succs@[k]).0 as int] != region@[bb.0 as int]);
                    }
                }
            }
        }
        j = j + 1;
    }
    proof {
        assert(tails_region(d, region@, bb) == is_tail && leaves == exists|x: Block| #[trigger] succ_seq(d, bb, false).contains(x)
            && region@[x.0 as int] != region@[bb.0 as int]) by {
            if exists|x: Block| #[trigger] succ_seq(d, bb, false).contains(x) && region@[x.0 as int] != region@[bb.0 as int] {
                let x = choose|x: Block| #[trigger] succ_seq(d, bb, false).contains(x) && region@[x.0 as int] != region@[bb.0 as int];
                let k = choose|k: int| 0 <= k < succs@.len() && succs@[k] == x;
            }
            if exists|k: int| 0 <= k < j && region@[(#[trigger] succs@[k]).0 as int] != region@[bb.0 as int] {
                let k = choose|k: int| 0 <= k < j && region@[(#[trigger] succs@[k]).0 as int] != region@[bb.0 as int];
                assert(succs@.contains(succs@[k]));
            }
        }
        assert(left_tightly(d, region@, bb) == tight) by {
            if tight {
                assert forall|x: Block| #[trigger] succ_seq(d, bb, false).contains(x) implies region@[x.0 as int] != region@[bb.0 as int] by {
                    let k = choose|k: int| 0 <= k < succs@.len() && succs@[k] == x;
                }
            } else {
                let k = choose|k: int| 0 <= k < j && !(region@[(#[trigger] succs@[k]).0 as int] != region@[bb.0 as int]);
                assert(succs@.contains(succs@[k]));
            }
        }
    }
    (is_tail, tight, leaves)
}


/// `v` contains `i`.
fn contains_inst(v: &Vec<Inst>, i: Inst) -> (r: bool)
    ensures
        r == v@.contains(i),
{
    let mut k: usize = 0;
    while k < v.len()
        invariant
            k <= v@.len(),
            forall|j: int| 0 <= j < k ==> v@[j] != i,
        decreases v@.len() - k,
    {
        if v[k] == i {
            return true;
        }
        k = k + 1;
    }
    false
}

/// Appending a new element keeps a list free of repetitions and adds just
/// that element.
proof fn lemma_push_new<T>(s: Seq<T>, x: T)
    requires
        s.no_duplicates(),
        !s.contains(x),
    ensures
        s.push(x).no_duplicates(),
        forall|y: T| #[trigger] s.push(x).contains(y) <==> s.contains(y) || y == x,
{
    let t = s.push(x);
    assert forall|a: int, b: int| 0 <= a < b < t.len() implies t[a] != t[b] by {
        if b == s.len() {
            assert(s.contains(t[a]));
        }
    }
    assert forall|y: T| #[trigger] t.contains(y) <==> s.contains(y) || y == x by {
        if s.contains(y) {
            let j = choose|j: int| 0 <= j < s.len() && s[j] == y;
            assert(t[j] == y);
        }
        if t.contains(y) && y != x {
            let j = choose|j: int| 0 <= j < t.len() && t[j] == y;
            assert(s[j] == y);
        }
        if y == x {
            assert(t[s.len() as int] == x);
        }
    }
}

/// The state of collecting one region's data from the first `k` blocks.
#[verifier::opaque]
spec fn collect_ok(
    d: UnitData,
    order: Seq<Block>,
    region: Seq<usize>,
    r: int,
    k: int,
    blocks: Seq<Block>,
    head_blocks: Seq<Block>,
    head_tight: bool,
    tail_blocks: Seq<Block>,
    tail_tight: bool,
    head_insts: Seq<Inst>,
    tail_insts: Seq<Inst>,
) -> bool {
    &&& blocks.no_duplicates()
    &&& forall|b: Block| #[trigger] blocks.contains(b) <==> exists|j: int| 0 <= j < k && #[trigger] order[j] == b && region[b.0 as int] == r
    &&& head_blocks.no_duplicates()
    &&& forall|b: Block| #[trigger] head_blocks.contains(b) <==> exists|j: int| 0 <= j < k && #[trigger] order[j] == b && region[b.0 as int] == r
        && heads_region(d, region, b)
    &&& head_tight == forall|b: Block| #[trigger] head_blocks.contains(b) ==> entered_tightly(d, region, b)
    &&& tail_blocks.no_duplicates()
    &&& forall|b: Block| #[trigger] tail_blocks.contains(b) <==> exists|j: int| 0 <= j < k && #[trigger] order[j] == b && region[b.0 as int] == r
        && tails_region(d, region, b)
    &&& tail_tight == forall|b: Block| #[trigger] tail_blocks.contains(b) ==> left_tightly(d, region, b)
    &&& head_insts.no_duplicates()
    &&& forall|i: Inst| #[trigger] head_insts.contains(i) <==> exists|j: int, p: Block|
        0 <= j < k && region[order[j].0 as int] == r && #[trigger] is_pred(d, p, order[j], false) && region[p.0 as int] != r && i
            == term_of(d, p)
    &&& tail_insts.no_duplicates()
    &&& forall|i: Inst| #[trigger] tail_insts.contains(i) <==> exists|j: int|
        0 <= j < k && region[(#[trigger] order[j]).0 as int] == r && i == term_of(d, order[j]) && exists|x: Block| #[trigger] succ_seq(
            d,
            order[j],
            false,
        ).contains(x) && region[x.0 as int] != r
}


/// Taking in the block `order[k]` keeps the collected data in step.
#[verifier::rlimit(40)]
proof fn lemma_collect_step(
    d: UnitData,
    order: Seq<Block>,
    region: Seq<usize>,
    r: int,
    k: int,
    b0: Seq<Block>,
    hb0: Seq<Block>,
    ht0: bool,
    tb0: Seq<Block>,
    tt0: bool,
    hi0: Seq<Inst>,
    ti0: Seq<Inst>,
    b1: Seq<Block>,
    hb1: Seq<Block>,
    ht1: bool,
    tb1: Seq<Block>,
    tt1: bool,
    hi1: Seq<Inst>,
    ti1: Seq<Inst>,
)
    requires
        order.no_duplicates(),
        0 <= k < order.len(),
        collect_ok(d, order, region, r, k, b0, hb0, ht0, tb0, tt0, hi0, ti0),
        region[order[k].0 as int] != r ==> b1 == b0 && hb1 == hb0 && ht1 == ht0 && tb1 == tb0 && tt1 == tt0 && hi1 == hi0 && ti1 == ti0,
        region[order[k].0 as int] == r ==> {
            let bb = order[k];
            &&& b1 == b0.push(bb)
            &&& hb1 == (if heads_region(d, region, bb) { hb0.push(bb) } else { hb0 })
            &&& ht1 == (if heads_region(d, region, bb) { ht0 && entered_tightly(d, region, bb) } else { ht0 })
            &&& tb1 == (if tails_region(d, region, bb) { tb0.push(bb) } else { tb0 })
            &&& tt1 == (if tails_region(d, region, bb) { tt0 && left_tightly(d, region, bb) } else { tt0 })
            &&& hi1.no_duplicates()
            &&& forall|i: Inst| #[trigger] hi1.contains(i) <==> hi0.contains(i) || exists|p: Block|
                #[trigger] is_pred(d, p, bb, false) && region[p.0 as int] != r && i == term_of(d, p)
            &&& ti1.no_duplicates()
            &&& forall|i: Inst| #[trigger] ti1.contains(i) <==> ti0.contains(i) || (i == term_of(d, bb) && exists|x: Block|
                #[trigger] succ_seq(d, bb, false).contains(x) && region[x.0 as int] != r)
        },
    ensures
        collect_ok(d, order, region, r, k + 1, b1, hb1, ht1, tb1, tt1, hi1, ti1),
{
    reveal(collect_ok);
    let bb = order[k];
    if region[bb.0 as int] == r {
        assert(!b0.contains(bb)) by {
            if b0.contains(bb) {
                let j = choose|j: int| 0 <= j < k && #[trigger] order[j] == bb && region[bb.0 as int] == r;
                assert(order[j] == order[k]);
            }
        }
        lemma_push_new(b0, bb);
        if heads_region(d, region, bb) {
            assert(!hb0.contains(bb)) by {
                if hb0.contains(bb) {
                    let j = choose|j: int| 0 <= j < k && #[trigger] order[j] == bb && region[bb.0 as int] == r && heads_region(d, region, bb);
                    assert(order[j] == order[k]);
                }
            }
            lemma_push_new(hb0, bb);
        }
        if tails_region(d, region, bb) {
            assert(!tb0.contains(bb)) by {
                if tb0.contains(bb) {
                    let j = choose|j: int| 0 <= j < k && #[trigger] order[j] == bb && region[bb.0 as int] == r && tails_region(d, region, bb);
                    assert(order[j] == order[k]);
                }
            }
            lemma_push_new(tb0, bb);
        }
    }
    assert forall|b: Block| #[trigger] b1.contains(b) <==> exists|j: int| 0 <= j < k + 1 && #[trigger] order[j] == b && region[b.0 as int] == r by {
        lemma_prefix_step(order, region, r, k, b, true);
    }
    assert forall|b: Block| #[trigger] hb1.contains(b) <==> exists|j: int| 0 <= j < k + 1 && #[trigger] order[j] == b && region[b.0 as int] == r
        && heads_region(d, region, b) by {
        lemma_prefix_step(order, region, r, k, b, heads_region(d, region, b));
    }
    assert forall|b: Block| #[trigger] tb1.contains(b) <==> exists|j: int| 0 <= j < k + 1 && #[trigger] order[j] == b && region[b.0 as int] == r
        && tails_region(d, region, b) by {
        lemma_prefix_step(order, region, r, k, b, tails_region(d, region, b));
    }
    assert forall|i: Inst| #[trigger] hi1.contains(i) <==> exists|j: int, p: Block|
        0 <= j < k + 1 && region[order[j].0 as int] == r && #[trigger] is_pred(d, p, order[j], false) && region[p.0 as int] != r && i
            == term_of(d, p) by {
        if exists|j: int, p: Block|
            0 <= j < k + 1 && region[order[j].0 as int] == r && #[trigger] is_pred(d, p, order[j], false) && region[p.0 as int] != r && i
                == term_of(d, p) {
            let (j, p) = choose|j: int, p: Block|
                0 <= j < k + 1 && region[order[j].0 as int] == r && #[trigger] is_pred(d, p, order[j], false) && region[p.0 as int] != r && i
                    == term_of(d, p);
            if j < k {
                assert(hi0.contains(i));
            }
        }
        if hi0.contains(i) {
            let (j, p) = choose|j: int, p: Block|
                0 <= j < k && region[order[j].0 as int] == r && #[trigger] is_pred(d, p, order[j], false) && region[p.0 as int] != r && i
                    == term_of(d, p);
            assert(0 <= j < k + 1);
        }
    }
    assert forall|i: Inst| #[trigger] ti1.contains(i) <==> exists|j: int|
        0 <= j < k + 1 && region[(#[trigger] order[j]).0 as int] == r && i == term_of(d, order[j]) && exists|x: Block| #[trigger] succ_seq(
            d,
            order[j],
            false,
        ).contains(x) && region[x.0 as int] != r by {
        if exists|j: int|
            0 <= j < k + 1 && region[(#[trigger] order[j]).0 as int] == r && i == term_of(d, order[j]) && exists|x: Block| #[trigger] succ_seq(
                d,
                order[j],
                false,
            ).contains(x) && region[x.0 as int] != r {
            let j = choose|j: int|
                0 <= j < k + 1 && region[(#[trigger] order[j]).0 as int] == r && i == term_of(d, order[j]) && exists|x: Block| #[trigger] succ_seq(
                    d,
                    order[j],
                    false,
                ).contains(x) && region[x.0 as int] != r;
            if j < k {
                assert(ti0.contains(i));
            }
        }
        if ti0.contains(i) {
            let j = choose|j: int|
                0 <= j < k && region[(#[trigger] order[j]).0 as int] == r && i == term_of(d, order[j]) && exists|x: Block| #[trigger] succ_seq(
                    d,
                    order[j],
                    false,
                ).contains(x) && region[x.0 as int] != r;
            assert(0 <= j < k + 1);
        }
    }
    if region[bb.0 as int] == r && heads_region(d, region, bb) {
        if ht1 {
            assert forall|b: Block| #[trigger] hb1.contains(b) implies entered_tightly(d, region, b) by {
                if b != bb {
                    assert(hb0.contains(b));
                }
            }
        } else if !ht0 {
            let b = choose|b: Block| #[trigger] hb0.contains(b) && !entered_tightly(d, region, b);
            assert(hb1.contains(b));
        } else {
            assert(hb1.contains(bb));
        }
    }
    assert(ht1 == forall|b: Block| #[trigger] hb1.contains(b) ==> entered_tightly(d, region, b));
    if region[bb.0 as int] == r && tails_region(d, region, bb) {
        if tt1 {
            assert forall|b: Block| #[trigger] tb1.contains(b) implies left_tightly(d, region, b) by {
                if b != bb {
                    assert(tb0.contains(b));
                }
            }
        } else if !tt0 {
            let b = choose|b: Block| #[trigger] tb0.contains(b) && !left_tightly(d, region, b);
            assert(tb1.contains(b));
        } else {
            assert(tb1.contains(bb));
        }
    }
    assert(tt1 == forall|b: Block| #[trigger] tb1.contains(b) ==> left_tightly(d, region, b));
}


/// A block lies in the first `k + 1` blocks exactly if it lies in the first
/// `k` or is block `k`.
proof fn lemma_prefix_step(order: Seq<Block>, region: Seq<usize>, r: int, k: int, b: Block, extra: bool)
    requires
        0 <= k < order.len(),
    ensures
        (exists|j: int| 0 <= j < k + 1 && #[trigger] order[j] == b && region[b.0 as int] == r && extra) <==> ((exists|j: int|
            0 <= j < k && #[trigger] order[j] == b && region[b.0 as int] == r && extra) || (b == order[k] && region[b.0 as int] == r && extra)),
{
    if exists|j: int| 0 <= j < k + 1 && #[trigger] order[j] == b && region[b.0 as int] == r && extra {
        let j = choose|j: int| 0 <= j < k + 1 && #[trigger] order[j] == b && region[b.0 as int] == r && extra;
        if j < k {
            assert(exists|j: int| 0 <= j < k && #[trigger] order[j] == b && region[b.0 as int] == r && extra);
        }
    }
    if b == order[k] && region[b.0 as int] == r && extra {
        assert(order[k] == b);
        assert(exists|j: int| 0 <= j < k + 1 && #[trigger] order[j] == b && region[b.0 as int] == r && extra);
    }
    if exists|j: int| 0 <= j < k && #[trigger] order[j] == b && region[b.0 as int] == r && extra {
        let j = choose|j: int| 0 <= j < k && #[trigger] order[j] == b && region[b.0 as int] == r && extra;
        assert(0 <= j < k + 1 && order[j] == b);
    }
}


/// The data of region `r`.
#[verifier::rlimit(40)]
fn build_region(
    unit: Unit,
    pt: &PredecessorTable,
    order: &Vec<Block>,
    region: &Vec<usize>,
    nroots: usize,
    r: usize,
) -> (rd: TemporalRegionData)
    requires
        trg_input(unit@),
        preds_reachable(unit@),
        pt.wf(),
        pt.describes(unit@, false),
        assign_ok(unit@, order@, region@),
        nroots == trg_roots(unit@).len(),
        r < nroots,
    ensures
        region_ok(unit@, order@, region@, r as int, rd),
{
    let ghost d = unit@;
    let mut blocks: Vec<Block> = Vec::new();
    let mut head_blocks: Vec<Block> = Vec::new();
    let mut head_tight = true;
    let mut tail_blocks: Vec<Block> = Vec::new();
    let mut tail_tight = true;
    let mut head_insts: Vec<Inst> = Vec::new();
    let mut tail_insts: Vec<Inst> = Vec::new();
    proof {
        reveal(collect_ok);
    }
    let mut k: usize = 0;
    while k < order.len()
        invariant
            trg_input(d),
            d == unit@,
            preds_reachable(d),
            pt.wf(),
            pt.describes(d, false),
            assign_ok(d, order@, region@),
            nroots == trg_roots(d).len(),
            k <= order@.len(),
            collect_ok(d, order@, region@, r as int, k as int, blocks@, head_blocks@, head_tight, tail_blocks@, tail_tight, head_insts@, tail_insts@),
        decreases order@.len() - k,
    {
        let bb = order[k];
        proof {
            reveal(collect_ok);
            assert(order@.contains(bb));
            d.lemma_block_bound(bb.0);
        }
        let ghost b0 = blocks@;
        let ghost hb0 = head_blocks@;
        let ghost ht0 = head_tight;
        let ghost tb0 = tail_blocks@;
        let ghost tt0 = tail_tight;
        let ghost hi0 = head_insts@;
        let ghost ti0 = tail_insts@;
        if region[bb.0 as usize] == r {
            blocks.push(bb);
            proof {
                assert forall|p: Block| #[trigger] is_pred(d, p, bb, false) implies (p.0 as int) < d.block_bound() by {
                    d.lemma_block_bound(p.0);
                }
                let roots = trg_roots(d);
                if k < nroots {
                    assert(order@[k as int] == roots[k as int]);
                } else if roots.contains(bb) {
                    let m = choose|m: int| 0 <= m < roots.len() && roots[m] == bb;
                    assert(order@[m] == roots[m]);
                    assert(order@[m] == order@[k as int]);
                }
            }
            let (h, ht) = head_info(pt, region, bb, k < nroots, Ghost(d));
            if h {
                head_blocks.push(bb);
                head_tight = head_tight && ht;
            }
            let (t, tt, leaves) = tail_info(unit, region, bb);
            if t {
                tail_blocks.push(bb);
                tail_tight = tail_tight && tt;
            }
            let preds = pt.pred(bb);
            let mut j: usize = 0;
            while j < preds.len()
                invariant
                    trg_input(d),
                    d == unit@,
                    pt.describes(d, false),
                    d.block_ids().contains(bb.0),
                    preds@ == pt.spec_preds(bb)->0,
                    region@.len() == d.block_bound(),
                    j <= preds@.len(),
                    head_insts@.no_duplicates(),
                    forall|i: Inst| #[trigger] head_insts@.contains(i) <==> hi0.contains(i) || exists|jj: int|
                        0 <= jj < j && region@[(#[trigger] preds@[jj]).0 as int] != r && i == term_of(d, preds@[jj]),
                decreases preds@.len() - j,
            {
                let p = preds[j];
                proof {
                    assert(preds@.contains(p));
                    assert(is_pred(d, p, bb, false));
                    d.lemma_block_bound(p.0);
                }
                let ghost hb = head_insts@;
                if region[p.0 as usize] != r {
                    let term = unit.terminator(p);
                    if !contains_inst(&head_insts, term) {
                        proof {
                            lemma_push_new(head_insts@, term);
                        }
                        head_insts.push(term);
                    }
                }
                proof {
                    assert forall|i: Inst| #[trigger] head_insts@.contains(i) <==> hi0.contains(i) || exists|jj: int|
                        0 <= jj < j + 1 && region@[(#[trigger] preds@[jj]).0 as int] != r && i == term_of(d, preds@[jj]) by {
                        if exists|jj: int| 0 <= jj < j + 1 && region@[(#[trigger] preds@[jj]).0 as int] != r && i == term_of(d, preds@[jj]) {
                            let jj = choose|jj: int| 0 <= jj < j + 1 && region@[(#[trigger] preds@[jj]).0 as int] != r && i == term_of(d, preds@[jj]);
                            if jj < j {
                                assert(hb.contains(i));
                            }
                        }
                        if hb.contains(i) && !hi0.contains(i) {
                            let jj = choose|jj: int| 0 <= jj < j && region@[(#[trigger] preds@[jj]).0 as int] != r && i == term_of(d, preds@[jj]);
                            assert(0 <= jj < j + 1);
                        }
                    }
                }
                j = j + 1;
            }
            if leaves {
                let term = unit.terminator(bb);
                if !contains_inst(&tail_insts, term) {
                    proof {
                        lemma_push_new(tail_insts@, term);
                    }
                    tail_insts.push(term);
                }
            }
            proof {
                assert forall|i: Inst| #[trigger] head_insts@.contains(i) <==> hi0.contains(i) || exists|p: Block|
                    #[trigger] is_pred(d, p, bb, false) && region@[p.0 as int] != r && i == term_of(d, p) by {
                    if exists|p: Block| #[trigger] is_pred(d, p, bb, false) && region@[p.0 as int] != r && i == term_of(d, p) {
                        let p = choose|p: Block| #[trigger] is_pred(d, p, bb, false) && region@[p.0 as int] != r && i == term_of(d, p);
                        assert(preds@.contains(p));
                        let jj = choose|jj: int| 0 <= jj < preds@.len() && preds@[jj] == p;
                    }
                    if exists|jj: int| 0 <= jj < j && region@[(#[trigger] preds@[jj]).0 as int] != r && i == term_of(d, preds@[jj]) {
                        let jj = choose|jj: int| 0 <= jj < j && region@[(#[trigger] preds@[jj]).0 as int] != r && i == term_of(d, preds@[jj]);
                        assert(preds@.contains(preds@[jj]));
                        assert(is_pred(d, preds@[jj], bb, false));
                    }
                }
                if !leaves {
                    assert(tail_insts@ == ti0);
                }
                assert forall|i: Inst| #[trigger] tail_insts@.contains(i) <==> ti0.contains(i) || (i == term_of(d, bb) && exists|x: Block|
                    #[trigger] succ_seq(d, bb, false).contains(x) && region@[x.0 as int] != r) by {}
            }
        }
        proof {
            lemma_collect_step(
                d,
                order@,
                region@,
                r as int,
                k as int,
                b0,
                hb0,
                ht0,
                tb0,
                tt0,
                hi0,
                ti0,
                blocks@,
                head_blocks@,
                head_tight,
                tail_blocks@,
                tail_tight,
                head_insts@,
                tail_insts@,
            );
        }
        k = k + 1;
    }
    let ghost head_blocks_v = head_blocks@;
    let ghost tail_blocks_v = tail_blocks@;
    proof {
        reveal(collect_ok);
    }
    let rd = TemporalRegionData {
        id: TemporalRegion(r),
        blocks,
        entry: r == 0,
        head_insts,
        head_blocks,
        head_tight,
        tail_insts,
        tail_blocks,
        tail_tight,
    };
    proof {
        reveal(collect_ok);
        let o = order@;
        let rg = region@;
        let ri = r as int;
        assert forall|b: Block| #[trigger] rd.blocks@.contains(b) <==> o.contains(b) && rg[b.0 as int] == ri by {
            if o.contains(b) && rg[b.0 as int] == ri {
                let j = choose|j: int| 0 <= j < o.len() && o[j] == b;
                assert(o[j] == b);
            }
        }
        assert forall|b: Block| #[trigger] rd.head_blocks@.contains(b) <==> o.contains(b) && rg[b.0 as int] == ri && heads_region(d, rg, b) by {
            if o.contains(b) && rg[b.0 as int] == ri && heads_region(d, rg, b) {
                let j = choose|j: int| 0 <= j < o.len() && o[j] == b;
                assert(o[j] == b);
            }
        }
        assert forall|b: Block| #[trigger] rd.tail_blocks@.contains(b) <==> o.contains(b) && rg[b.0 as int] == ri && tails_region(d, rg, b) by {
            if o.contains(b) && rg[b.0 as int] == ri && tails_region(d, rg, b) {
                let j = choose|j: int| 0 <= j < o.len() && o[j] == b;
                assert(o[j] == b);
            }
        }
        assert forall|i: Inst| #[trigger] rd.head_insts@.contains(i) <==> exists|b: Block, p: Block|
            #![trigger is_pred(d, p, b, false), o.contains(b)]
            o.contains(b) && rg[b.0 as int] == ri && is_pred(d, p, b, false) && rg[p.0 as int] != ri && i == term_of(d, p) by {
            if rd.head_insts@.contains(i) {
                let (j, p) = choose|j: int, p: Block|
                    0 <= j < k && rg[o[j].0 as int] == ri && #[trigger] is_pred(d, p, o[j], false) && rg[p.0 as int] != ri && i == term_of(d, p);
                assert(o.contains(o[j]));
            }
            if exists|b: Block, p: Block|
                #![trigger is_pred(d, p, b, false), o.contains(b)]
                o.contains(b) && rg[b.0 as int] == ri && is_pred(d, p, b, false) && rg[p.0 as int] != ri && i == term_of(d, p) {
                let (b, p) = choose|b: Block, p: Block|
                    #![trigger is_pred(d, p, b, false), o.contains(b)]
                    o.contains(b) && rg[b.0 as int] == ri && is_pred(d, p, b, false) && rg[p.0 as int] != ri && i == term_of(d, p);
                let j = choose|j: int| 0 <= j < o.len() && o[j] == b;
                assert(is_pred(d, p, o[j], false));
            }
        }
        assert forall|i: Inst| #[trigger] rd.tail_insts@.contains(i) <==> exists|b: Block|
            #![trigger o.contains(b)]
            o.contains(b) && rg[b.0 as int] == ri && i == term_of(d, b) && exists|x: Block| #[trigger] succ_seq(d, b, false).contains(x)
                && rg[x.0 as int] != ri by {
            if rd.tail_insts@.contains(i) {
                let j = choose|j: int|
                    0 <= j < k && rg[(#[trigger] o[j]).0 as int] == ri && i == term_of(d, o[j]) && exists|x: Block| #[trigger] succ_seq(
                        d,
                        o[j],
                        false,
                    ).contains(x) && rg[x.0 as int] != ri;
                assert(o.contains(o[j]));
            }
            if exists|b: Block|
                #![trigger o.contains(b)]
                o.contains(b) && rg[b.0 as int] == ri && i == term_of(d, b) && exists|x: Block| #[trigger] succ_seq(d, b, false).contains(x)
                    && rg[x.0 as int] != ri {
                let b = choose|b: Block|
                    #![trigger o.contains(b)]
                    o.contains(b) && rg[b.0 as int] == ri && i == term_of(d, b) && exists|x: Block| #[trigger] succ_seq(d, b, false).contains(x)
                        && rg[x.0 as int] != ri;
                let j = choose|j: int| 0 <= j < o.len() && o[j] == b;
                assert(o[j] == b);
            }
        }
        assert(rd.head_blocks@ == head_blocks_v);
        if rd.head_tight {
            assert forall|b: Block| #[trigger] rd.head_blocks@.contains(b) implies entered_tightly(d, rg, b) by {
                assert(head_blocks_v.contains(b));
            }
        } else {
            let b = choose|b: Block| #[trigger] head_blocks_v.contains(b) && !entered_tightly(d, rg, b);
            assert(rd.head_blocks@.contains(b));
        }
        assert(rd.tail_blocks@ == tail_blocks_v);
        if rd.tail_tight {
            assert forall|b: Block| #[trigger] rd.tail_blocks@.contains(b) implies left_tightly(d, rg, b) by {
                assert(tail_blocks_v.contains(b));
            }
        } else {
            let b = choose|b: Block| #[trigger] tail_blocks_v.contains(b) && !left_tightly(d, rg, b);
            assert(rd.tail_blocks@.contains(b));
        }
        assert(rd.blocks@.no_duplicates() && rd.head_blocks@.no_duplicates() && rd.tail_blocks@.no_duplicates());
        assert(rd.head_insts@.no_duplicates() && rd.tail_insts@.no_duplicates());
        assert(rd.id == TemporalRegion(ri as usize));
        assert(rd.entry == (ri == 0));
    }
    rd
}


impl TemporalRegionGraph {
    /// Compute the temporal regions of a process.
    ///
    /// The entry block and the targets of temporal instructions start a
    /// region each; every other block joins the region of a block that
    /// branches to it without crossing a temporal instruction.
    pub fn new(unit: Unit) -> (g: Self)
        requires
            trg_input(unit@),
            preds_reachable(unit@),
        ensures
            g.describes(unit@),
    {
        let (order, region, nroots) = assign_regions(unit);
        let pt = PredecessorTable::new(unit);
        let mut regions: Vec<TemporalRegionData> = Vec::new();
        let mut r: usize = 0;
        while r < nroots
            invariant
                trg_input(unit@),
                preds_reachable(unit@),
                pt.wf(),
                pt.describes(unit@, false),
                assign_ok(unit@, order@, region@),
                nroots == trg_roots(unit@).len(),
                r <= nroots,
                regions@.len() == r,
                forall|k: int| 0 <= k < r ==> region_ok(unit@, order@, region@, k, #[trigger] regions@[k]),
            decreases nroots - r,
        {
            let rd = build_region(unit, &pt, &order, &region, nroots, r);
            regions.push(rd);
            r = r + 1;
        }
        TemporalRegionGraph { blocks: region, order, regions }
    }

    /// The region of a block that belongs to one.
    pub fn region(&self, bb: Block) -> (r: TemporalRegion)
        requires
            (bb.0 as int) < self.spec_region().len(),
        ensures
            r == TemporalRegion(self.spec_region()[bb.0 as int]),
    {
        TemporalRegion(self.blocks[bb.0 as usize])
    }

    /// The data of a region.
    pub fn data(&self, tr: TemporalRegion) -> (d: &TemporalRegionData)
        requires
            tr.0 < self.spec_regions().len(),
        ensures
            *d == self.spec_regions()[tr.0 as int],
    {
        &self.regions[tr.0]
    }

    /// Check if a block is a temporal head block.
    pub fn is_head(&self, bb: Block) -> (b: bool)
        requires
            (bb.0 as int) < self.spec_region().len(),
            self.spec_region()[bb.0 as int] < self.spec_regions().len(),
        ensures
            b == self.spec_regions()[self.spec_region()[bb.0 as int] as int].head_blocks@.contains(bb),
    {
        self.data(self.region(bb)).is_head(bb)
    }

    /// Check if a block is a temporal tail block.
    pub fn is_tail(&self, bb: Block) -> (b: bool)
        requires
            (bb.0 as int) < self.spec_region().len(),
            self.spec_region()[bb.0 as int] < self.spec_regions().len(),
        ensures
            b == self.spec_regions()[self.spec_region()[bb.0 as int] as int].tail_blocks@.contains(bb),
    {
        self.data(self.region(bb)).is_tail(bb)
    }

    /// Get the temporal regions in the graph.
    pub fn regions(&self) -> (v: &Vec<TemporalRegionData>)
        ensures
            v@ == self.spec_regions(),
    {
        &self.regions
    }
}

impl TemporalRegionData {
    /// The blocks in this region.
    pub fn blocks(&self) -> (v: Vec<Block>)
        ensures
            v@ == self.blocks@,
    {
        self.blocks.clone()
    }

    /// The head instructions of this region.
    pub fn head_insts(&self) -> (v: Vec<Inst>)
        ensures
            v@ == self.head_insts@,
    {
        self.head_insts.clone()
    }

    /// The head blocks of this region.
    pub fn head_blocks(&self) -> (v: Vec<Block>)
        ensures
            v@ == self.head_blocks@,
    {
        self.head_blocks.clone()
    }

    /// The tail instructions of this region.
    pub fn tail_insts(&self) -> (v: Vec<Inst>)
        ensures
            v@ == self.tail_insts@,
    {
        self.tail_insts.clone()
    }

    /// The tail blocks of this region.
    pub fn tail_blocks(&self) -> (v: Vec<Block>)
        ensures
            v@ == self.tail_blocks@,
    {
        self.tail_blocks.clone()
    }

    /// Check if a block is a temporal head block.
    pub fn is_head(&self, bb: Block) -> (b: bool)
        ensures
            b == self.head_blocks@.contains(bb),
    {
        contains_block(&self.head_blocks, bb)
    }

    /// Check if a block is a temporal tail block.
    pub fn is_tail(&self, bb: Block) -> (b: bool)
        ensures
            b == self.tail_blocks@.contains(bb),
    {
        contains_block(&self.tail_blocks, bb)
    }
}

/// Every block of the graph belongs to exactly one region, and that region
/// lists it; a region's head and tail blocks are blocks of the region; the
/// entry block is in the entry region.
pub proof fn lemma_regions_partition(g: TemporalRegionGraph, d: UnitData, b: Block)
    requires
        g.describes(d),
        trg_input(d),
        g.spec_order().contains(b),
    ensures
        g.spec_region()[b.0 as int] < g.spec_regions().len(),
        g.spec_regions()[g.spec_region()[b.0 as int] as int].blocks@.contains(b),
        forall|r: int| 0 <= r < g.spec_regions().len() && #[trigger] g.spec_regions()[r].blocks@.contains(b) ==> r
            == g.spec_region()[b.0 as int],
        forall|r: int| 0 <= r < g.spec_regions().len() && #[trigger] g.spec_regions()[r].head_blocks@.contains(b)
            ==> g.spec_regions()[r].blocks@.contains(b),
        forall|r: int| 0 <= r < g.spec_regions().len() && #[trigger] g.spec_regions()[r].tail_blocks@.contains(b)
            ==> g.spec_regions()[r].blocks@.contains(b),
        g.spec_region()[d.block_ids()[0] as int] == 0,
        g.spec_regions()[0].entry,
{
    let o = g.spec_order();
    let i = o.index_of(b);
    assert(o[i] == b);
    let r0 = g.spec_region()[b.0 as int] as int;
    assert(region_ok(d, o, g.spec_region(), r0, g.spec_regions()[r0]));
    assert forall|r: int| 0 <= r < g.spec_regions().len() && #[trigger] g.spec_regions()[r].head_blocks@.contains(b) implies g.spec_regions()[r].blocks@.contains(b) by {
        assert(region_ok(d, o, g.spec_region(), r, g.spec_regions()[r]));
    }
    assert forall|r: int| 0 <= r < g.spec_regions().len() && #[trigger] g.spec_regions()[r].tail_blocks@.contains(b) implies g.spec_regions()[r].blocks@.contains(b) by {
        assert(region_ok(d, o, g.spec_region(), r, g.spec_regions()[r]));
    }
    assert forall|r: int| 0 <= r < g.spec_regions().len() && #[trigger] g.spec_regions()[r].blocks@.contains(b) implies r == g.spec_region()[b.0 as int] by {
        assert(region_ok(d, o, g.spec_region(), r, g.spec_regions()[r]));
    }
    lemma_dedup(seq![Block(d.block_ids()[0])] + temporal_targets(d, d.block_ids()));
    assert(trg_roots(d)[0] == Block(d.block_ids()[0])) by {
        reveal_with_fuel(dedup, 2);
        let s = seq![Block(d.block_ids()[0])] + temporal_targets(d, d.block_ids());
        lemma_dedup_first(s);
    }
    assert(o[0] == trg_roots(d)[0]);
    assert(region_ok(d, o, g.spec_region(), 0, g.spec_regions()[0]));
}

/// The first element survives removing repetitions, in front.
proof fn lemma_dedup_first(s: Seq<Block>)
    requires
        s.len() > 0,
    ensures
        dedup(s).len() > 0,
        dedup(s)[0] == s[0],
    decreases s.len(),
{
    if s.len() == 1 {
        assert(s.drop_last().len() == 0);
        assert(dedup(s.drop_last()) == Seq::<Block>::empty());
    } else {
        lemma_dedup_first(s.drop_last());
        assert(s.drop_last()[0] == s[0]);
    }
}


/// # Analyses
impl<'a> Unit<'a> {
    /// Compute the unit's temporal region graph.
    pub fn trg(self) -> (g: TemporalRegionGraph)
        requires
            trg_input(self@),
            preds_reachable(self@),
        ensures
            g.describes(self@),
    {
        TemporalRegionGraph::new(self)
    }
}

} // verus!
