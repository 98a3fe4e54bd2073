//! Dominator trees of the control flow graph.

use crate::analysis::preds::{contains_block, succ_seq, PredecessorTable};
use crate::ir::keys::{Block, Inst, Value};
use crate::ir::layout::as_blocks;
use crate::ir::unit::{Unit, UnitData, ValueData};
use vstd::prelude::*;
use vstd::set_lib::lemma_len_subset;

verus! {

/// Hierarchical bit sets of the `hibitset` crate.
#[verifier::external_type_specification]
#[verifier::external_body]
pub struct ExBitSet(hibitset::BitSet);

/// The indices held by a bit set.
pub uninterp spec fn bitset_elems(s: hibitset::BitSet) -> Set<u32>;

/// The largest index count that `BitSet` accepts on every target (the
/// crate's limit is 2^20 on 32-bit targets and 2^24 on 64-bit targets).
pub open spec fn bitset_limit() -> u32 {
    0x10_0000
}

/// `hibitset::BitSet::with_capacity`: an empty set, preallocated for
/// indices up to `max`. The crate panics when `max` exceeds its limit,
/// which `requires` rules out.
#[verifier::external_body]
fn bitset_with_capacity(max: u32) -> (s: hibitset::BitSet)
    requires
        max <= bitset_limit(),
    ensures
        bitset_elems(s) == Set::<u32>::empty(),
{
    hibitset::BitSet::with_capacity(max)
}

/// `hibitset::BitSet::add`: inserts `id` and returns whether it was in the
/// set already. The crate panics on an index past its limit, which
/// `requires` rules out.
#[verifier::external_body]
fn bitset_add(s: &mut hibitset::BitSet, id: u32) -> (was: bool)
    requires
        id < bitset_limit(),
    ensures
        was == bitset_elems(*old(s)).contains(id),
        bitset_elems(*final(s)) == bitset_elems(*old(s)).insert(id),
{
    s.add(id)
}

/// `hibitset::BitSet::contains`: whether `id` is in the set.
#[verifier::external_body]
fn bitset_contains(s: &hibitset::BitSet, id: u32) -> (b: bool)
    ensures
        b == bitset_elems(*s).contains(id),
{
    s.contains(id)
}

/// The blocks a depth-first search of the control flow graph starts from:
/// the entry block, then every inserted block without predecessors.
pub open spec fn root_seq(d: UnitData, t: PredecessorTable) -> Seq<Block> {
    seq![Block(d.block_ids()[0])] + pred_free(t, d.block_ids())
}

/// The blocks of a list that have no predecessors in the table, in order.
pub open spec fn pred_free(t: PredecessorTable, ids: Seq<u32>) -> Seq<Block>
    decreases ids.len(),
{
    if ids.len() == 0 {
        Seq::empty()
    } else {
        let rest = pred_free(t, ids.drop_last());
        if t.spec_preds(Block(ids.last()))->0.len() == 0 {
            rest.push(Block(ids.last()))
        } else {
            rest
        }
    }
}

/// A block without predecessors is listed exactly if it is in the list.
proof fn lemma_pred_free(t: PredecessorTable, ids: Seq<u32>, b: Block)
    ensures
        pred_free(t, ids).contains(b) <==> (ids.contains(b.0) && t.spec_preds(b)->0.len() == 0),
    decreases ids.len(),
{
    if ids.len() > 0 {
        lemma_pred_free(t, ids.drop_last(), b);
        let rest = pred_free(t, ids.drop_last());
        if ids.drop_last().contains(b.0) {
            let j = choose|j: int| 0 <= j < ids.drop_last().len() && ids.drop_last()[j] == b.0;
            assert(ids[j] == b.0);
        }
        if ids.contains(b.0) && b.0 != ids.last() {
            let j = choose|j: int| 0 <= j < ids.len() && ids[j] == b.0;
            assert(ids.drop_last()[j] == b.0);
        }
        if t.spec_preds(Block(ids.last()))->0.len() == 0 {
            let out = rest.push(Block(ids.last()));
            if rest.contains(b) {
                let j = choose|j: int| 0 <= j < rest.len() && rest[j] == b;
                assert(out[j] == b);
            }
            if out.contains(b) && b != Block(ids.last()) {
                let j = choose|j: int| 0 <= j < out.len() && out[j] == b;
                assert(rest[j] == b);
            }
            if b == Block(ids.last()) {
                assert(out[rest.len() as int] == b);
                assert(ids[ids.len() - 1] == b.0);
            }
        } else {
            if b.0 == ids.last() {
                assert(ids[ids.len() - 1] == b.0);
            }
        }
    }
}

/// Every root is an inserted block, and every inserted block without
/// predecessors is a root.
proof fn lemma_roots(d: UnitData, t: PredecessorTable, b: Block)
    requires
        d.block_ids().len() > 0,
    ensures
        root_seq(d, t).contains(b) ==> d.block_ids().contains(b.0),
        d.block_ids().contains(b.0) && t.spec_preds(b)->0.len() == 0 ==> root_seq(d, t).contains(b),
        root_seq(d, t).contains(Block(d.block_ids()[0])),
{
    lemma_pred_free(t, d.block_ids(), b);
    let r = root_seq(d, t);
    let p = pred_free(t, d.block_ids());
    assert(r[0] == Block(d.block_ids()[0]));
    if r.contains(b) {
        let j = choose|j: int| 0 <= j < r.len() && r[j] == b;
        if j == 0 {
            assert(d.block_ids()[0] == b.0);
        } else {
            assert(p[j - 1] == b);
        }
    }
    if p.contains(b) {
        let j = choose|j: int| 0 <= j < p.len() && p[j] == b;
        assert(r[j + 1] == b);
    }
}

/// A set of block ids that contains the roots and every successor of its
/// members.
pub open spec fn closed_set(d: UnitData, t: PredecessorTable, s: Set<u32>) -> bool {
    &&& forall|r: Block| #[trigger] root_seq(d, t).contains(r) ==> s.contains(r.0)
    &&& forall|b: u32, x: Block| s.contains(b) && #[trigger] t.spec_succs(Block(b))->0.contains(x) ==> #[trigger] s.contains(x.0)
}

/// The block can be reached from a root: every closed set holds it.
pub open spec fn reachable(d: UnitData, t: PredecessorTable, b: u32) -> bool {
    forall|s: Set<u32>| #[trigger] closed_set(d, t, s) ==> s.contains(b)
}

/// The table describes the unit (with or without the edges that leave
/// temporal instructions), and the unit has an entry block.
pub open spec fn dom_input(d: UnitData, t: PredecessorTable, temporal: bool) -> bool {
    &&& d.wf()
    &&& d.targets_inserted()
    &&& d.block_ids().len() > 0
    &&& t.wf()
    &&& t.describes(d, temporal)
    &&& d.block_bound() < bitset_limit()
}

/// The successors of an inserted block are inserted.
proof fn lemma_succ_inserted(d: UnitData, t: PredecessorTable, temporal: bool, b: Block, s: Block)
    requires
        dom_input(d, t, temporal),
        d.block_ids().contains(b.0),
        t.spec_succs(b)->0.contains(s),
    ensures
        d.block_ids().contains(s.0),
{
    assert(succ_seq(d, b, temporal).contains(s));
    assert(d.branches_inserted(b.0));
    let k = choose|k: int| 0 <= k < succ_seq(d, b, temporal).len() && succ_seq(d, b, temporal)[k] == s;
    assert(d.block_ids().contains(succ_seq(d, b, temporal)[k].0));
}

/// The blocks of a depth-first search in post-order.
pub open spec fn post_order_ok(d: UnitData, t: PredecessorTable, order: Seq<Block>) -> bool {
    &&& order.no_duplicates()
    &&& forall|b: Block| #[trigger] order.contains(b) <==> reachable(d, t, b.0)
    &&& forall|b: Block| #[trigger] order.contains(b) ==> d.block_ids().contains(b.0)
    &&& forall|b: Block| #[trigger] order.contains(b) && !root_seq(d, t).contains(b) ==> exists|p: Block|
        #[trigger] t.spec_succs(p)->0.contains(b) && order.contains(p) && order.index_of(p) > order.index_of(b)
}

/// The state of the depth-first search.
spec fn dfs_ok(
    d: UnitData,
    t: PredecessorTable,
    stack: Seq<Block>,
    disc: Set<u32>,
    fin: Set<u32>,
    order: Seq<Block>,
    owner: Seq<int>,
    dpos: Map<u32, int>,
    par: Map<u32, u32>,
) -> bool {
    &&& owner.len() == stack.len()
    &&& forall|i: int| 0 <= i < stack.len() ==> d.block_ids().contains(#[trigger] stack[i].0)
    &&& forall|i: int| 0 <= i < stack.len() ==> reachable(d, t, #[trigger] stack[i].0)
    &&& forall|x: u32| #[trigger] disc.contains(x) ==> reachable(d, t, x) && d.block_ids().contains(x)
    &&& forall|x: u32| #[trigger] fin.contains(x) ==> disc.contains(x)
    &&& order.no_duplicates()
    &&& forall|b: Block| #[trigger] order.contains(b) <==> fin.contains(b.0)
    &&& forall|r: Block| #[trigger] root_seq(d, t).contains(r) ==> stack.contains(r) || fin.contains(r.0)
    &&& forall|x: u32| #[trigger] disc.contains(x) ==> stack.contains(Block(x)) || fin.contains(x)
    &&& forall|x: u32, s: Block| disc.contains(x) && #[trigger] t.spec_succs(Block(x))->0.contains(s) ==> stack.contains(s)
        || fin.contains(s.0)
    &&& forall|x: u32| #[trigger] disc.contains(x) && !fin.contains(x) ==> {
        &&& dpos.dom().contains(x)
        &&& 0 <= dpos[x] < stack.len()
        &&& stack[dpos[x]].0 == x
        &&& forall|j: int| dpos[x] < j < stack.len() ==> (#[trigger] stack[j]).0 != x
        &&& (par.dom().contains(x) ==> owner[dpos[x]] == dpos[par[x] as u32])
        &&& (!par.dom().contains(x) ==> owner[dpos[x]] == -1)
    }
    &&& forall|i: int| 0 <= i < stack.len() ==> {
        ||| #[trigger] owner[i] == -1 && root_seq(d, t).contains(stack[i])
        ||| {
            &&& 0 <= owner[i] < i
            &&& disc.contains(stack[owner[i]].0)
            &&& !fin.contains(stack[owner[i]].0)
            &&& dpos[stack[owner[i]].0] == owner[i]
            &&& t.spec_succs(stack[owner[i]])->0.contains(stack[i])
        }
    }
    &&& forall|x: u32| #[trigger] disc.contains(x) ==> par.dom().contains(x) || root_seq(d, t).contains(Block(x))
    &&& forall|x: u32| #[trigger] par.dom().contains(x) ==> {
        &&& disc.contains(x)
        &&& disc.contains(par[x])
        &&& t.spec_succs(Block(par[x]))->0.contains(Block(x))
        &&& (!fin.contains(par[x]) || (fin.contains(x) && order.index_of(Block(par[x])) > order.index_of(Block(x))))
    }
}


/// Discovering the block on top of the stack and pushing its undiscovered
/// successors keeps the search state consistent.
proof fn lemma_dfs_discover(
    d: UnitData,
    t: PredecessorTable,
    temporal: bool,
    stack0: Seq<Block>,
    disc0: Set<u32>,
    fin: Set<u32>,
    order: Seq<Block>,
    owner0: Seq<int>,
    dpos0: Map<u32, int>,
    par0: Map<u32, u32>,
    ext: Seq<Block>,
)
    requires
        dom_input(d, t, temporal),
        dfs_ok(d, t, stack0, disc0, fin, order, owner0, dpos0, par0),
        stack0.len() > 0,
        !disc0.contains(stack0.last().0),
        forall|i: int| 0 <= i < ext.len() ==> t.spec_succs(stack0.last())->0.contains(#[trigger] ext[i])
            && !disc0.insert(stack0.last().0).contains(ext[i].0),
        forall|s: Block| #[trigger] t.spec_succs(stack0.last())->0.contains(s) ==> (stack0 + ext).contains(s)
            || fin.contains(s.0) || disc0.insert(stack0.last().0).contains(s.0),
    ensures
        ({
            let top = stack0.len() - 1;
            let next = stack0.last();
            let par1 = if owner0[top] != -1 {
                par0.insert(next.0, stack0[owner0[top]].0)
            } else {
                par0
            };
            dfs_ok(
                d,
                t,
                stack0 + ext,
                disc0.insert(next.0),
                fin,
                order,
                owner0 + Seq::new(ext.len(), |i: int| top),
                dpos0.insert(next.0, top),
                par1,
            )
        }),
{
    let top = stack0.len() - 1;
    let next = stack0.last();
    let par1 = if owner0[top] != -1 {
        par0.insert(next.0, stack0[owner0[top]].0)
    } else {
        par0
    };
    let stack1 = stack0 + ext;
    let disc1 = disc0.insert(next.0);
    let owner1 = owner0 + Seq::new(ext.len(), |i: int| top);
    let dpos1 = dpos0.insert(next.0, top);
    assert(d.block_ids().contains(next.0) && reachable(d, t, next.0));
    assert forall|i: int| 0 <= i < stack1.len() implies d.block_ids().contains(#[trigger] stack1[i].0)
        && reachable(d, t, stack1[i].0) by {
        if i >= stack0.len() {
            assert(ext[i - stack0.len()] == stack1[i]);
            lemma_succ_inserted(d, t, temporal, next, stack1[i]);
            assert forall|s: Set<u32>| #[trigger] closed_set(d, t, s) implies s.contains(stack1[i].0) by {
                assert(s.contains(next.0));
            }
        } else {
            assert(stack0[i] == stack1[i]);
        }
    }
    assert forall|r: Block| #[trigger] root_seq(d, t).contains(r) implies stack1.contains(r) || fin.contains(r.0) by {
        if stack0.contains(r) {
            let w = choose|w: int| 0 <= w < stack0.len() && stack0[w] == r;
            assert(stack1[w] == r);
        }
    }
    assert forall|x: u32| #[trigger] disc1.contains(x) implies stack1.contains(Block(x)) || fin.contains(x) by {
        if x == next.0 {
            assert(stack1[top] == next);
        } else if stack0.contains(Block(x)) {
            let w = choose|w: int| 0 <= w < stack0.len() && stack0[w] == Block(x);
            assert(stack1[w] == Block(x));
        }
    }
    assert forall|x: u32, s: Block| disc1.contains(x) && #[trigger] t.spec_succs(Block(x))->0.contains(s) implies stack1.contains(s)
        || fin.contains(s.0) by {
        if x == next.0 {
            if disc1.contains(s.0) && !stack1.contains(s) && !fin.contains(s.0) {
                if s.0 == next.0 {
                    assert(stack1[top] == next);
                } else {
                    assert(disc0.contains(s.0));
                    let w = choose|w: int| 0 <= w < stack0.len() && stack0[w] == Block(s.0);
                    assert(stack1[w] == s);
                }
            }
        } else {
            if stack0.contains(s) {
                let w = choose|w: int| 0 <= w < stack0.len() && stack0[w] == s;
                assert(stack1[w] == s);
            }
        }
    }
    assert forall|x: u32| #[trigger] disc1.contains(x) && !fin.contains(x) implies {
        &&& dpos1.dom().contains(x)
        &&& 0 <= dpos1[x] < stack1.len()
        &&& stack1[dpos1[x]].0 == x
        &&& forall|j: int| dpos1[x] < j < stack1.len() ==> (#[trigger] stack1[j]).0 != x
        &&& (par1.dom().contains(x) ==> owner1[dpos1[x]] == dpos1[par1[x] as u32])
        &&& (!par1.dom().contains(x) ==> owner1[dpos1[x]] == -1)
    } by {
        if x == next.0 {
            assert forall|j: int| dpos1[x] < j < stack1.len() implies (#[trigger] stack1[j]).0 != x by {
                assert(ext[j - stack0.len()] == stack1[j]);
            }
            if owner0[top] != -1 {
                let o = owner0[top];
                assert(0 <= o < top);
                assert(stack0[o].0 != next.0);
                assert(dpos1[stack0[o].0] == o);
            }
        } else {
            assert(disc0.contains(x));
            assert forall|j: int| dpos1[x] < j < stack1.len() implies (#[trigger] stack1[j]).0 != x by {
                if j >= stack0.len() {
                    assert(ext[j - stack0.len()] == stack1[j]);
                } else {
                    assert(stack0[j] == stack1[j]);
                }
            }
            if par1.dom().contains(x) {
                assert(par0.dom().contains(x));
                assert(par1[x] == par0[x]);
                assert(disc0.contains(par0[x]));
                assert(!fin.contains(par0[x]));
                assert(par0[x] != next.0);
            }
        }
    }
    assert forall|i: int| 0 <= i < stack1.len() implies {
        ||| #[trigger] owner1[i] == -1 && root_seq(d, t).contains(stack1[i])
        ||| {
            &&& 0 <= owner1[i] < i
            &&& disc1.contains(stack1[owner1[i]].0)
            &&& !fin.contains(stack1[owner1[i]].0)
            &&& dpos1[stack1[owner1[i]].0] == owner1[i]
            &&& t.spec_succs(stack1[owner1[i]])->0.contains(stack1[i])
        }
    } by {
        if i >= stack0.len() {
            assert(owner1[i] == top);
            assert(stack1[top] == next);
            assert(ext[i - stack0.len()] == stack1[i]);
            assert(!disc0.contains(next.0));
            assert(!fin.contains(next.0));
        } else {
            assert(owner1[i] == owner0[i]);
            assert(stack1[i] == stack0[i]);
            if owner0[i] != -1 {
                let o = owner0[i];
                assert(stack1[o] == stack0[o]);
                assert(disc0.contains(stack0[o].0));
                assert(stack0[o].0 != next.0);
            }
        }
    }
    assert forall|x: u32| #[trigger] disc1.contains(x) implies par1.dom().contains(x) || root_seq(d, t).contains(Block(x)) by {
        if x == next.0 && owner0[top] == -1 {
            assert(root_seq(d, t).contains(stack0[top]));
        }
    }
    assert forall|x: u32| #[trigger] par1.dom().contains(x) implies {
        &&& disc1.contains(x)
        &&& disc1.contains(par1[x])
        &&& t.spec_succs(Block(par1[x]))->0.contains(Block(x))
        &&& (!fin.contains(par1[x]) || (fin.contains(x) && order.index_of(Block(par1[x])) > order.index_of(Block(x))))
    } by {
        if x == next.0 && owner0[top] != -1 {
            let o = owner0[top];
            assert(stack0[o] == Block(stack0[o].0));
        }
    }
}

/// Appending a new element to a list without repetitions keeps it without
/// repetitions and the positions of the old elements.
proof fn lemma_push_fresh(s: Seq<Block>, x: Block)
    requires
        s.no_duplicates(),
        !s.contains(x),
    ensures
        s.push(x).no_duplicates(),
        forall|b: Block| #[trigger] s.push(x).contains(b) <==> s.contains(b) || b == x,
        forall|b: Block| #[trigger] s.contains(b) ==> s.push(x).index_of(b) == s.index_of(b),
        s.push(x).index_of(x) == s.len(),
{
    let t = s.push(x);
    assert forall|a: int, b: int| 0 <= a < b < t.len() implies t[a] != t[b] by {
        if b == s.len() {
            assert(s.contains(t[a]));
        }
    }
    assert forall|b: Block| #[trigger] t.contains(b) <==> s.contains(b) || b == x by {
        if s.contains(b) {
            let j = choose|j: int| 0 <= j < s.len() && s[j] == b;
            assert(t[j] == b);
        }
        if t.contains(b) && b != x {
            let j = choose|j: int| 0 <= j < t.len() && t[j] == b;
            assert(s[j] == b);
        }
        if b == x {
            assert(t[s.len() as int] == x);
        }
    }
    assert forall|b: Block| #[trigger] s.contains(b) implies t.index_of(b) == s.index_of(b) by {
        let i = s.index_of(b);
        assert(t[i] == b);
        assert(t.contains(b));
        let k = t.index_of(b);
        assert(t[k] == b);
    }
    assert(t[s.len() as int] == x);
    assert(t.contains(x));
}

/// Popping the block on top of the stack, after its successors have been
/// searched, and finishing it keeps the search state consistent.
#[verifier::rlimit(40)]
proof fn lemma_dfs_finish(
    d: UnitData,
    t: PredecessorTable,
    temporal: bool,
    stack0: Seq<Block>,
    disc: Set<u32>,
    fin0: Set<u32>,
    order0: Seq<Block>,
    owner0: Seq<int>,
    dpos: Map<u32, int>,
    par: Map<u32, u32>,
)
    requires
        dom_input(d, t, temporal),
        dfs_ok(d, t, stack0, disc, fin0, order0, owner0, dpos, par),
        stack0.len() > 0,
        disc.contains(stack0.last().0),
    ensures
        ({
            let next = stack0.last();
            let fin1 = fin0.insert(next.0);
            let order1 = if fin0.contains(next.0) {
                order0
            } else {
                order0.push(next)
            };
            dfs_ok(d, t, stack0.drop_last(), disc, fin1, order1, owner0.drop_last(), dpos, par)
        }),
{
    let top = stack0.len() - 1;
    let next = stack0.last();
    let fin1 = fin0.insert(next.0);
    let order1 = if fin0.contains(next.0) {
        order0
    } else {
        order0.push(next)
    };
    let stack1 = stack0.drop_last();
    let owner1 = owner0.drop_last();
    let was_open = !fin0.contains(next.0);
    if was_open {
        assert(dpos[next.0] == top);
        assert(!order0.contains(next));
        lemma_push_fresh(order0, next);
    }
    assert forall|b: Block| #[trigger] order1.contains(b) <==> fin1.contains(b.0) by {}
    assert forall|r: Block| #[trigger] root_seq(d, t).contains(r) implies stack1.contains(r) || fin1.contains(r.0) by {
        if stack0.contains(r) && r != next {
            let w = choose|w: int| 0 <= w < stack0.len() && stack0[w] == r;
            assert(stack1[w] == r);
        }
    }
    assert forall|x: u32| #[trigger] disc.contains(x) implies stack1.contains(Block(x)) || fin1.contains(x) by {
        if x != next.0 && stack0.contains(Block(x)) {
            let w = choose|w: int| 0 <= w < stack0.len() && stack0[w] == Block(x);
            assert(stack1[w] == Block(x));
        }
    }
    assert forall|x: u32, s: Block| disc.contains(x) && #[trigger] t.spec_succs(Block(x))->0.contains(s) implies stack1.contains(s)
        || fin1.contains(s.0) by {
        if s != next && stack0.contains(s) {
            let w = choose|w: int| 0 <= w < stack0.len() && stack0[w] == s;
            assert(stack1[w] == s);
        }
    }
    assert forall|x: u32| #[trigger] disc.contains(x) && !fin1.contains(x) implies {
        &&& dpos.dom().contains(x)
        &&& 0 <= dpos[x] < stack1.len()
        &&& stack1[dpos[x]].0 == x
        &&& forall|j: int| dpos[x] < j < stack1.len() ==> (#[trigger] stack1[j]).0 != x
        &&& (par.dom().contains(x) ==> owner1[dpos[x]] == dpos[par[x] as u32])
        &&& (!par.dom().contains(x) ==> owner1[dpos[x]] == -1)
    } by {
        assert(dpos[x] != top);
        assert forall|j: int| dpos[x] < j < stack1.len() implies (#[trigger] stack1[j]).0 != x by {
            assert(stack0[j] == stack1[j]);
        }
    }
    assert forall|i: int| 0 <= i < stack1.len() implies {
        ||| #[trigger] owner1[i] == -1 && root_seq(d, t).contains(stack1[i])
        ||| {
            &&& 0 <= owner1[i] < i
            &&& disc.contains(stack1[owner1[i]].0)
            &&& !fin1.contains(stack1[owner1[i]].0)
            &&& dpos[stack1[owner1[i]].0] == owner1[i]
            &&& t.spec_succs(stack1[owner1[i]])->0.contains(stack1[i])
        }
    } by {
        assert(owner1[i] == owner0[i]);
        assert(stack1[i] == stack0[i]);
        if owner0[i] != -1 {
            let o = owner0[i];
            assert(stack1[o] == stack0[o]);
            if stack0[o].0 == next.0 {
                assert(dpos[next.0] == o);
            }
        }
    }
    lemma_dfs_finish_parents(d, t, stack0, disc, fin0, order0, owner0, dpos, par);
}

/// Finishing the block on top of the stack keeps parents after their
/// children in the post-order.
proof fn lemma_dfs_finish_parents(
    d: UnitData,
    t: PredecessorTable,
    stack0: Seq<Block>,
    disc: Set<u32>,
    fin0: Set<u32>,
    order0: Seq<Block>,
    owner0: Seq<int>,
    dpos: Map<u32, int>,
    par: Map<u32, u32>,
)
    requires
        dfs_ok(d, t, stack0, disc, fin0, order0, owner0, dpos, par),
        stack0.len() > 0,
        disc.contains(stack0.last().0),
    ensures
        ({
            let next = stack0.last();
            let fin1 = fin0.insert(next.0);
            let order1 = if fin0.contains(next.0) {
                order0
            } else {
                order0.push(next)
            };
            forall|x: u32| #[trigger] par.dom().contains(x) ==> (!fin1.contains(par[x]) || (fin1.contains(x)
                && order1.index_of(Block(par[x])) > order1.index_of(Block(x))))
        }),
{
    let top = stack0.len() - 1;
    let next = stack0.last();
    let fin1 = fin0.insert(next.0);
    let was_open = !fin0.contains(next.0);
    if was_open {
        let order1 = order0.push(next);
        assert(dpos[next.0] == top);
        assert(!order0.contains(next));
        lemma_push_fresh(order0, next);
        assert forall|x: u32| #[trigger] par.dom().contains(x) implies (!fin1.contains(par[x]) || (fin1.contains(x)
            && order1.index_of(Block(par[x])) > order1.index_of(Block(x)))) by {
            if par[x] == next.0 {
                if !fin0.contains(x) {
                    let c = dpos[x];
                    assert(owner0[c] == dpos[next.0]);
                    assert(owner0[c] < c);
                }
                assert(order0.contains(Block(x)));
                assert(0 <= order0.index_of(Block(x)) < order0.len());
            } else if x == next.0 {
            } else if fin0.contains(par[x]) {
                assert(order0.contains(Block(par[x])));
                assert(order0.contains(Block(x)));
            }
        }
    }
}

/// The root blocks of a depth-first search: the entry block, then every
/// inserted block without predecessors, in layout order.
fn roots(unit: Unit, pred: &PredecessorTable, Ghost(temporal): Ghost<bool>) -> (v: Vec<Block>)
    requires
        dom_input(unit@, *pred, temporal),
    ensures
        v@ == root_seq(unit@, *pred),
{
    let bbs = unit.blocks();
    let mut v: Vec<Block> = Vec::new();
    v.push(unit.entry());
    let ghost ids = unit@.block_ids();
    let mut k: usize = 0;
    while k < bbs.len()
        invariant
            dom_input(unit@, *pred, temporal),
            k <= bbs@.len(),
            ids == unit@.block_ids(),
            bbs@ == as_blocks(ids),
            v@ == seq![Block(ids[0])] + pred_free(*pred, ids.subrange(0, k as int)),
        decreases bbs@.len() - k,
    {
        let bb = bbs[k];
        proof {
            assert(ids[k as int] == bb.0);
            assert(ids.contains(bb.0));
            assert(ids.subrange(0, k + 1).drop_last() =~= ids.subrange(0, k as int));
            assert(ids.subrange(0, k + 1).last() == bb.0);
        }
        if pred.pred_set(bb).len() == 0 {
            v.push(bb);
            proof {
                assert(v@ =~= seq![Block(ids[0])] + pred_free(*pred, ids.subrange(0, k + 1)));
            }
        }
        k = k + 1;
    }
    proof {
        assert(ids.subrange(0, k as int) =~= ids);
    }
    v
}


/// The inserted blocks that can be reached from the roots, in the
/// post-order of a depth-first search.
fn compute_blocks_post_order(unit: Unit, pred: &PredecessorTable, Ghost(temporal): Ghost<bool>) -> (order: Vec<Block>)
    requires
        dom_input(unit@, *pred, temporal),
    ensures
        post_order_ok(unit@, *pred, order@),
{
    let ghost d = unit@;
    let ghost t = *pred;
    let n = unit.block_id_bound() as u32;
    let mut order: Vec<Block> = Vec::new();
    let mut stack = roots(unit, pred, Ghost(temporal));
    let mut discovered = bitset_with_capacity(n);
    let mut finished = bitset_with_capacity(n);
    let ghost mut owner: Seq<int> = Seq::new(stack@.len(), |i: int| -1int);
    let ghost mut dpos: Map<u32, int> = Map::empty();
    let ghost mut par: Map<u32, u32> = Map::empty();
    proof {
        assert forall|i: int| 0 <= i < stack@.len() implies d.block_ids().contains(#[trigger] stack@[i].0)
            && reachable(d, t, stack@[i].0) by {
            assert(root_seq(d, t).contains(stack@[i]));
            lemma_roots(d, t, stack@[i]);
            assert forall|s: Set<u32>| #[trigger] closed_set(d, t, s) implies s.contains(stack@[i].0) by {}
        }
        assert forall|i: int| 0 <= i < stack@.len() implies {
            ||| #[trigger] owner[i] == -1 && root_seq(d, t).contains(stack@[i])
            ||| {
                &&& 0 <= owner[i] < i
                &&& bitset_elems(discovered).contains(stack@[owner[i]].0)
                &&& !bitset_elems(finished).contains(stack@[owner[i]].0)
                &&& dpos[stack@[owner[i]].0] == owner[i]
                &&& t.spec_succs(stack@[owner[i]])->0.contains(stack@[i])
            }
        } by {
            assert(root_seq(d, t)[i] == stack@[i]);
        }
        assert forall|r: Block| #[trigger] root_seq(d, t).contains(r) implies stack@.contains(r) by {}
    }
    while stack.len() > 0
        invariant
            dom_input(d, t, temporal),
            d == unit@,
            t == *pred,
            n == d.block_bound(),
            forall|x: u32| #[trigger] bitset_elems(discovered).contains(x) ==> x < n,
            dfs_ok(d, t, stack@, bitset_elems(discovered), bitset_elems(finished), order@, owner, dpos, par),
        decreases n - bitset_elems(discovered).len(), stack@.len(),
    {
        let ghost disc0 = bitset_elems(discovered);
        let ghost stack0 = stack@;
        proof {
            vstd::set_lib::range_set_properties::<u32>(0, n);
            assert(disc0.subset_of(Set::<u32>::range(0, n)));
            lemma_len_subset(disc0, Set::<u32>::range(0, n));
        }
        let top = stack.len() - 1;
        let next = stack[top];
        proof {
            assert(d.block_ids().contains(next.0));
            d.lemma_block_bound(next.0);
        }
        if !bitset_add(&mut discovered, next.0) {
            let succs = pred.succ_set(next);
            let mut j: usize = 0;
            while j < succs.len()
                invariant
                    dom_input(d, t, temporal),
                    t == *pred,
                    d == unit@,
                    n == d.block_bound(),
                    stack0.len() > 0,
                    stack0.last() == next,
                    succs@ == t.spec_succs(next)->0,
                    d.block_ids().contains(next.0),
                    bitset_elems(discovered) == disc0.insert(next.0),
                    j <= succs@.len(),
                    stack@.len() >= stack0.len(),
                    stack@.subrange(0, stack0.len() as int) == stack0,
                    forall|i: int| stack0.len() <= i < stack@.len() ==> t.spec_succs(next)->0.contains(#[trigger] stack@[i])
                        && !bitset_elems(discovered).contains(stack@[i].0),
                    forall|k: int| 0 <= k < j ==> stack@.contains(#[trigger] succs@[k]) || bitset_elems(discovered).contains(succs@[k].0),
                decreases succs@.len() - j,
            {
                let s = succs[j];
                proof {
                    lemma_succ_inserted(d, t, temporal, next, s);
                    d.lemma_block_bound(s.0);
                }
                let ghost st = stack@;
                if !bitset_contains(&discovered, s.0) {
                    stack.push(s);
                }
                proof {
                    assert(stack@.subrange(0, stack0.len() as int) =~= stack0);
                    assert forall|k: int| 0 <= k < j + 1 implies stack@.contains(#[trigger] succs@[k]) || bitset_elems(discovered).contains(succs@[k].0) by {
                        if k < j && st.contains(succs@[k]) {
                            let w = choose|w: int| 0 <= w < st.len() && st[w] == succs@[k];
                            assert(stack@[w] == succs@[k]);
                        }
                        if k == j && stack@.len() > st.len() {
                            assert(stack@[stack@.len() - 1] == s);
                        }
                    }
                }
                j = j + 1;
            }
            proof {
                let ext = stack@.subrange(stack0.len() as int, stack@.len() as int);
                assert(stack@ =~= stack0 + ext);
                assert forall|i: int| 0 <= i < ext.len() implies t.spec_succs(stack0.last())->0.contains(#[trigger] ext[i])
                    && !disc0.insert(stack0.last().0).contains(ext[i].0) by {
                    assert(ext[i] == stack@[stack0.len() + i]);
                }
                assert forall|x: Block| #[trigger] t.spec_succs(stack0.last())->0.contains(x) implies (stack0 + ext).contains(x)
                    || bitset_elems(finished).contains(x.0) || disc0.insert(stack0.last().0).contains(x.0) by {
                    let k = choose|k: int| 0 <= k < succs@.len() && succs@[k] == x;
                    assert(stack@.contains(succs@[k]) || bitset_elems(discovered).contains(succs@[k].0));
                }
                lemma_dfs_discover(d, t, temporal, stack0, disc0, bitset_elems(finished), order@, owner, dpos, par, ext);
                let top_i = stack0.len() - 1;
                if owner[top_i] != -1 {
                    par = par.insert(next.0, stack0[owner[top_i]].0);
                }
                dpos = dpos.insert(next.0, top_i);
                owner = owner + Seq::new(ext.len(), |i: int| top_i);
                assert(disc0.insert(next.0).len() == disc0.len() + 1);
                assert(disc0.insert(next.0).subset_of(Set::<u32>::range(0, n)));
                lemma_len_subset(disc0.insert(next.0), Set::<u32>::range(0, n));
            }
        } else {
            let ghost fin0 = bitset_elems(finished);
            let ghost order0 = order@;
            let ghost owner0 = owner;
            stack.pop();
            proof {
                owner = owner.drop_last();
                assert(stack@ =~= stack0.drop_last());
            }
            if !bitset_add(&mut finished, next.0) {
                order.push(next);
            }
            proof {
                lemma_dfs_finish(d, t, temporal, stack0, disc0, fin0, order0, owner0, dpos, par);
            }
        }
    }
    proof {
        let fin = bitset_elems(finished);
        let disc = bitset_elems(discovered);
        assert forall|b: Block| #[trigger] order@.contains(b) implies d.block_ids().contains(b.0) && reachable(d, t, b.0) by {
            assert(fin.contains(b.0));
            assert(disc.contains(b.0));
        }
        assert(closed_set(d, t, fin)) by {
            assert forall|r: Block| #[trigger] root_seq(d, t).contains(r) implies fin.contains(r.0) by {}
            assert forall|b: u32, x: Block| fin.contains(b) && #[trigger] t.spec_succs(Block(b))->0.contains(x) implies #[trigger] fin.contains(x.0) by {
                assert(disc.contains(b));
            }
        }
        assert forall|b: Block| #[trigger] order@.contains(b) <==> reachable(d, t, b.0) by {
            if reachable(d, t, b.0) {
                assert(fin.contains(b.0));
            }
        }
        assert forall|b: Block| #[trigger] order@.contains(b) && !root_seq(d, t).contains(b) implies exists|p: Block|
            #[trigger] t.spec_succs(p)->0.contains(b) && order@.contains(p) && order@.index_of(p) > order@.index_of(b) by {
            assert(disc.contains(b.0));
            assert(par.dom().contains(b.0));
            let p = Block(par[b.0]);
            assert(fin.contains(par[b.0]));
            assert(order@.contains(p));
        }
    }
    order
}


/// Every inserted block can be reached from a root.
pub open spec fn all_reachable(d: UnitData, t: PredecessorTable) -> bool {
    forall|b: u32| #[trigger] d.block_ids().contains(b) ==> reachable(d, t, b)
}

/// `inv` maps each block of the post-order to its position.
pub open spec fn inv_ok(order: Seq<Block>, inv: Seq<u32>, bound: nat) -> bool {
    &&& inv.len() == bound
    &&& forall|i: int| 0 <= i < order.len() ==> (#[trigger] order[i]).0 < bound && inv[order[i].0 as int] == i
}

/// Every defined entry of the immediate dominator table names a defined
/// entry.
pub open spec fn doms_closed(doms: Seq<u32>) -> bool {
    forall|j: int| 0 <= j < doms.len() && #[trigger] doms[j] != u32::MAX ==> doms[j] < doms.len() && doms[doms[j] as int]
        != u32::MAX
}

/// Where the walk of two fingers `i1` and `i2` up the immediate dominator
/// table ends within `fuel` steps: the smaller finger moves to its
/// immediate dominator until the fingers meet; if the first finger reaches
/// a root it is the result, if the second does the walk's starting point
/// `a` is; when the steps run out, the first finger is.
pub open spec fn meet(doms: Seq<u32>, a: u32, i1: u32, i2: u32, fuel: nat) -> u32
    decreases fuel,
{
    if i1 == i2 || fuel == 0 {
        i1
    } else if i1 < i2 {
        if i1 == doms[i1 as int] {
            i1
        } else {
            meet(doms, a, doms[i1 as int], i2, (fuel - 1) as nat)
        }
    } else {
        if i2 == doms[i2 as int] {
            a
        } else {
            meet(doms, a, i1, doms[i2 as int], (fuel - 1) as nat)
        }
    }
}

/// The entry `k` steps up the immediate dominator table from `x`.
pub open spec fn table_iter(doms: Seq<u32>, x: u32, k: nat) -> u32
    decreases k,
{
    if k == 0 {
        x
    } else {
        table_iter(doms, doms[x as int], (k - 1) as nat)
    }
}

/// `c` lies on the walk up the table from `x`: it is `x` or one of the
/// ancestors of `x` in the tree that the table describes.
pub open spec fn table_ancestor(doms: Seq<u32>, x: u32, c: u32) -> bool {
    exists|k: nat| #[trigger] table_iter(doms, x, k) == c
}

/// `c` is an ancestor of both `a` and `b` in the tree that the table
/// describes.
pub open spec fn common_ancestor(doms: Seq<u32>, a: u32, b: u32, c: u32) -> bool {
    table_ancestor(doms, a, c) && table_ancestor(doms, b, c)
}

/// The table describes a forest numbered in post-order, as the immediate
/// dominators of blocks by post-order position do: every entry names a
/// position of the table no earlier than its own, and a root names itself.
pub open spec fn post_order_forest(doms: Seq<u32>) -> bool {
    forall|j: int| 0 <= j < doms.len() ==> j <= #[trigger] doms[j] && doms[j] < doms.len()
}

/// The walk up a post-order forest never goes back and stays in the table.
proof fn lemma_iter_rises(doms: Seq<u32>, x: u32, k: nat)
    requires
        post_order_forest(doms),
        (x as int) < doms.len(),
    ensures
        x <= table_iter(doms, x, k),
        (table_iter(doms, x, k) as int) < doms.len(),
    decreases k,
{
    if k > 0 {
        assert(x <= doms[x as int]);
        lemma_iter_rises(doms, doms[x as int], (k - 1) as nat);
    }
}

/// The walk from a root stays at the root.
proof fn lemma_iter_root(doms: Seq<u32>, x: u32, k: nat)
    requires
        doms[x as int] == x,
    ensures
        table_iter(doms, x, k) == x,
    decreases k,
{
    if k > 0 {
        lemma_iter_root(doms, x, (k - 1) as nat);
    }
}

/// One step more up the walk is one step up from where the walk is.
proof fn lemma_iter_step(doms: Seq<u32>, x: u32, k: nat)
    ensures
        table_iter(doms, x, k + 1) == doms[table_iter(doms, x, k) as int],
    decreases k,
{
    assert(table_iter(doms, x, k + 1) == table_iter(doms, doms[x as int], k));
    if k > 0 {
        lemma_iter_step(doms, doms[x as int], (k - 1) as nat);
        assert(table_iter(doms, x, k) == table_iter(doms, doms[x as int], (k - 1) as nat));
    }
}

/// The fingers of the walk in `meet` keep to the ancestors of their
/// starting points, and every common ancestor of those stays a common
/// ancestor of the fingers; so the walk ends at the nearest one.
proof fn lemma_meet_walk(doms: Seq<u32>, a: u32, b: u32, i1: u32, i2: u32, fuel: nat)
    requires
        post_order_forest(doms),
        (i1 as int) < doms.len(),
        (i2 as int) < doms.len(),
        table_ancestor(doms, a, i1),
        table_ancestor(doms, b, i2),
        forall|c: u32| #[trigger] common_ancestor(doms, a, b, c) ==> common_ancestor(doms, i1, i2, c),
        exists|c: u32| #[trigger] common_ancestor(doms, a, b, c),
        fuel >= 2 * doms.len() - i1 - i2,
    ensures
        common_ancestor(doms, a, b, meet(doms, a, i1, i2, fuel)),
        forall|c: u32| #[trigger] common_ancestor(doms, a, b, c) ==> table_ancestor(doms, meet(doms, a, i1, i2, fuel), c),
    decreases fuel,
{
    let c0 = choose|c: u32| #[trigger] common_ancestor(doms, a, b, c);
    assert(common_ancestor(doms, i1, i2, c0));
    if i1 == i2 {
    } else if i1 < i2 {
        if i1 == doms[i1 as int] {
            let k1 = choose|k: nat| #[trigger] table_iter(doms, i1, k) == c0;
            let k2 = choose|k: nat| #[trigger] table_iter(doms, i2, k) == c0;
            lemma_iter_root(doms, i1, k1);
            lemma_iter_rises(doms, i2, k2);
            assert(false);
        } else {
            let n1 = doms[i1 as int];
            assert(i1 < n1);
            let ka = choose|k: nat| #[trigger] table_iter(doms, a, k) == i1;
            lemma_iter_step(doms, a, ka);
            assert(table_iter(doms, a, ka + 1) == n1);
            assert forall|c: u32| #[trigger] common_ancestor(doms, a, b, c) implies common_ancestor(doms, n1, i2, c) by {
                assert(common_ancestor(doms, i1, i2, c));
                let k1 = choose|k: nat| #[trigger] table_iter(doms, i1, k) == c;
                let k2 = choose|k: nat| #[trigger] table_iter(doms, i2, k) == c;
                lemma_iter_rises(doms, i2, k2);
                assert(k1 > 0);
                assert(table_iter(doms, n1, (k1 - 1) as nat) == c);
            }
            lemma_meet_walk(doms, a, b, n1, i2, (fuel - 1) as nat);
        }
    } else {
        if i2 == doms[i2 as int] {
            let k1 = choose|k: nat| #[trigger] table_iter(doms, i1, k) == c0;
            let k2 = choose|k: nat| #[trigger] table_iter(doms, i2, k) == c0;
            lemma_iter_root(doms, i2, k2);
            lemma_iter_rises(doms, i1, k1);
            assert(false);
        } else {
            let n2 = doms[i2 as int];
            assert(i2 < n2);
            let kb = choose|k: nat| #[trigger] table_iter(doms, b, k) == i2;
            lemma_iter_step(doms, b, kb);
            assert(table_iter(doms, b, kb + 1) == n2);
            assert forall|c: u32| #[trigger] common_ancestor(doms, a, b, c) implies common_ancestor(doms, i1, n2, c) by {
                assert(common_ancestor(doms, i1, i2, c));
                let k1 = choose|k: nat| #[trigger] table_iter(doms, i1, k) == c;
                let k2 = choose|k: nat| #[trigger] table_iter(doms, i2, k) == c;
                lemma_iter_rises(doms, i1, k1);
                assert(k2 > 0);
                assert(table_iter(doms, n2, (k2 - 1) as nat) == c);
            }
            lemma_meet_walk(doms, a, b, i1, n2, (fuel - 1) as nat);
        }
    }
}

/// Walking two positions up a post-order forest of immediate dominators, as
/// `intersect` does, ends at their nearest common ancestor: a position that
/// is an ancestor of both, and that every common ancestor of both is an
/// ancestor of in turn. Where two blocks join, the walk from their
/// predecessors stops at the nearest block above both, not at the root.
pub proof fn lemma_meet_nearest_common_ancestor(doms: Seq<u32>, a: u32, b: u32)
    requires
        post_order_forest(doms),
        (a as int) < doms.len(),
        (b as int) < doms.len(),
        exists|c: u32| #[trigger] common_ancestor(doms, a, b, c),
    ensures
        common_ancestor(doms, a, b, meet(doms, a, a, b, u64::MAX as nat)),
        forall|c: u32| #[trigger] common_ancestor(doms, a, b, c) ==> table_ancestor(
            doms,
            meet(doms, a, a, b, u64::MAX as nat),
            c,
        ),
{
    let last = doms.len() - 1;
    assert(last <= doms[last]);
    assert(table_iter(doms, a, 0) == a);
    assert(table_iter(doms, b, 0) == b);
    lemma_meet_walk(doms, a, b, a, b, u64::MAX as nat);
}

/// Walk two post-order indices up the immediate dominator table until they
/// meet, or one of them reaches a root.
///
/// The walk is bounded by a 64-bit step counter, which no table of this
/// crate's size can exhaust.
fn intersect(doms: &Vec<u32>, a: u32, b: u32) -> (r: u32)
    requires
        (a as int) < doms@.len(),
        (b as int) < doms@.len(),
        doms@[a as int] != u32::MAX,
        doms@[b as int] != u32::MAX,
        doms_closed(doms@),
    ensures
        r == meet(doms@, a, a, b, u64::MAX as nat),
        (r as int) < doms@.len(),
        doms@[r as int] != u32::MAX,
{
    let i1_init = a;
    let mut i1 = a;
    let mut i2 = b;
    let mut fuel: u64 = u64::MAX;
    while i1 != i2 && fuel > 0
        invariant
            i1_init == a,
            (a as int) < doms@.len(),
            doms@[a as int] != u32::MAX,
            (i1 as int) < doms@.len(),
            (i2 as int) < doms@.len(),
            doms@[i1 as int] != u32::MAX,
            doms@[i2 as int] != u32::MAX,
            doms_closed(doms@),
            meet(doms@, a, i1, i2, fuel as nat) == meet(doms@, a, a, b, u64::MAX as nat),
        decreases fuel,
    {
        fuel = fuel - 1;
        if i1 < i2 {
            if i1 == doms[i1 as usize] {
                return i1;
            }
            i1 = doms[i1 as usize];
        } else if i2 < i1 {
            if i2 == doms[i2 as usize] {
                return i1_init;
            }
            i2 = doms[i2 as usize];
        }
    }
    i1
}

/// The immediate dominators of the blocks, by post-order position, found by
/// iterating to a fixpoint over the blocks in reverse post-order.
///
/// The fixpoint iteration is bounded by a 64-bit round counter, which no
/// table of this crate's size can exhaust.
fn compute_idoms(
    unit: Unit,
    pred: &PredecessorTable,
    order: &Vec<Block>,
    inv: &Vec<u32>,
    Ghost(temporal): Ghost<bool>,
) -> (doms: Vec<u32>)
    requires
        dom_input(unit@, *pred, temporal),
        all_reachable(unit@, *pred),
        post_order_ok(unit@, *pred, order@),
        inv_ok(order@, inv@, unit@.block_bound()),
    ensures
        doms@.len() == order@.len(),
        forall|j: int| 0 <= j < doms@.len() ==> (#[trigger] doms@[j] as int) < doms@.len(),
        forall|r: Block| #[trigger] root_seq(unit@, *pred).contains(r) ==> doms@[inv@[r.0 as int] as int] == inv@[r.0 as int],
{
    let ghost d = unit@;
    let ghost t = *pred;
    let length = order.len();
    let undef = u32::MAX;
    let mut doms: Vec<u32> = Vec::new();
    let mut k: usize = 0;
    while k < length
        invariant
            undef == u32::MAX,
            k <= length,
            doms@.len() == k,
            forall|j: int| 0 <= j < k ==> (#[trigger] doms@[j]) == u32::MAX,
        decreases length - k,
    {
        doms.push(undef);
        k = k + 1;
    }
    proof {
        assert forall|b: Block| #[trigger] order@.contains(b) implies (inv@[b.0 as int] as int) < length
            && order@[inv@[b.0 as int] as int] == b by {
            let i = order@.index_of(b);
            assert(order@[i] == b);
        }
        assert(order@.len() <= d.block_bound()) by {
            assert forall|i: int| 0 <= i < order@.len() implies (#[trigger] order@[i]).0 < d.block_bound() by {
                assert(order@.contains(order@[i]));
                d.lemma_block_bound(order@[i].0);
            }
            lemma_bounded_distinct(order@, d.block_bound());
        }
        d.lemma_block_bound(d.block_ids()[0]);
    }
    let e = unit.entry();
    proof {
        lemma_roots(d, t, e);
        assert(d.block_ids().contains(e.0));
        assert(reachable(d, t, e.0));
        assert(order@.contains(e));
    }
    let pe = inv[e.0 as usize];
    doms.set(pe as usize, pe);
    let bbs = unit.blocks();
    let mut k: usize = 0;
    while k < bbs.len()
        invariant
            dom_input(d, t, temporal),
            all_reachable(d, t),
            d == unit@,
            t == *pred,
            post_order_ok(d, t, order@),
            inv_ok(order@, inv@, d.block_bound()),
            length == order@.len(),
            length < u32::MAX,
            k <= bbs@.len(),
            bbs@ == as_blocks(d.block_ids()),
            doms@.len() == length,
            doms_closed(doms@),
            forall|b: Block| #[trigger] order@.contains(b) ==> (inv@[b.0 as int] as int) < length
                && order@[inv@[b.0 as int] as int] == b,
            forall|r: Block| #[trigger] root_seq(d, t).contains(r) && (r == e || pred_free(t, d.block_ids().subrange(0, k as int)).contains(r))
                ==> doms@[inv@[r.0 as int] as int] == inv@[r.0 as int],
        decreases bbs@.len() - k,
    {
        let bb = bbs[k];
        proof {
            assert(d.block_ids()[k as int] == bb.0);
            assert(d.block_ids().contains(bb.0));
            assert(order@.contains(bb));
            assert(d.block_ids().subrange(0, k + 1).drop_last() =~= d.block_ids().subrange(0, k as int));
        }
        if pred.pred_set(bb).len() == 0 {
            let p = inv[bb.0 as usize];
            doms.set(p as usize, p);
        }
        proof {
            let s1 = d.block_ids().subrange(0, k + 1);
            let s0 = d.block_ids().subrange(0, k as int);
            assert forall|r: Block| #[trigger] root_seq(d, t).contains(r) && (r == e || pred_free(t, s1).contains(r))
                implies doms@[inv@[r.0 as int] as int] == inv@[r.0 as int] by {
                lemma_roots(d, t, r);
                assert(order@.contains(r));
                if r != e && r != bb {
                    lemma_pred_free(t, s1, r);
                    lemma_pred_free(t, s0, r);
                    let j = choose|j: int| 0 <= j < s1.len() && s1[j] == r.0;
                    assert(s0[j] == r.0);
                    assert(inv@[r.0 as int] != inv@[bb.0 as int]);
                }
                if r == bb {
                    lemma_pred_free(t, s1, r);
                }
            }
        }
        k = k + 1;
    }
    proof {
        assert(d.block_ids().subrange(0, k as int) =~= d.block_ids());
        assert forall|r: Block| #[trigger] root_seq(d, t).contains(r) implies doms@[inv@[r.0 as int] as int] == inv@[r.0 as int] by {
            let rs = root_seq(d, t);
            let j = choose|j: int| 0 <= j < rs.len() && rs[j] == r;
            if j > 0 {
                assert(pred_free(t, d.block_ids())[j - 1] == r);
            }
        }
    }
    let mut changed = true;
    let mut swept = false;
    let mut fuel: u64 = u64::MAX;
    while changed && fuel > 0
        invariant
            undef == u32::MAX,
            dom_input(d, t, temporal),
            d == unit@,
            t == *pred,
            post_order_ok(d, t, order@),
            inv_ok(order@, inv@, d.block_bound()),
            all_reachable(d, t),
            length == order@.len(),
            length < u32::MAX,
            doms@.len() == length,
            doms_closed(doms@),
            forall|b: Block| #[trigger] order@.contains(b) ==> (inv@[b.0 as int] as int) < length
                && order@[inv@[b.0 as int] as int] == b,
            forall|r: Block| #[trigger] root_seq(d, t).contains(r) ==> doms@[inv@[r.0 as int] as int] == inv@[r.0 as int],
            swept ==> forall|j: int| 0 <= j < length ==> #[trigger] doms@[j] != u32::MAX,
            !swept ==> changed && fuel == u64::MAX,
        decreases fuel,
    {
        fuel = fuel - 1;
        changed = false;
        let mut idx = length;
        while idx > 0
            invariant
                undef == u32::MAX,
                dom_input(d, t, temporal),
                d == unit@,
                t == *pred,
                post_order_ok(d, t, order@),
                inv_ok(order@, inv@, d.block_bound()),
                all_reachable(d, t),
                length == order@.len(),
                length < u32::MAX,
                idx <= length,
                doms@.len() == length,
                doms_closed(doms@),
                forall|b: Block| #[trigger] order@.contains(b) ==> (inv@[b.0 as int] as int) < length
                    && order@[inv@[b.0 as int] as int] == b,
                forall|r: Block| #[trigger] root_seq(d, t).contains(r) ==> doms@[inv@[r.0 as int] as int] == inv@[r.0 as int],
                forall|j: int| idx <= j < length ==> #[trigger] doms@[j] != u32::MAX,
            decreases idx,
        {
            idx = idx - 1;
            if doms[idx] != idx as u32 {
                let bb = order[idx];
                proof {
                    assert(order@.contains(bb));
                    assert(d.block_ids().contains(bb.0));
                }
                let preds = pred.pred_set(bb);
                proof {
                    assert(order@.contains(bb));
                    assert(inv@[bb.0 as int] == idx);
                    assert(order@.index_of(bb) == idx as int) by {
                        let w = order@.index_of(bb);
                        assert(order@[w] == bb);
                        assert(order@[idx as int] == bb);
                    }
                    assert(!root_seq(d, t).contains(bb));
                    assert(d.block_ids().contains(bb.0));
                }
                let ghost parent = choose|p: Block| #[trigger] t.spec_succs(p)->0.contains(bb) && order@.contains(p)
                    && order@.index_of(p) > order@.index_of(bb);
                proof {
                    assert(d.block_ids().contains(parent.0));
                    assert(succ_seq(d, parent, temporal).contains(bb));
                    assert(preds@.contains(parent));
                    assert(inv@[parent.0 as int] as int == order@.index_of(parent)) by {
                        let w = order@.index_of(parent);
                        assert(order@[w] == parent);
                    }
                }
                let mut new_idom: u32 = undef;
                let mut j: usize = 0;
                while j < preds.len()
                    invariant
                        undef == u32::MAX,
                        inv_ok(order@, inv@, d.block_bound()),
                        length == order@.len(),
                        length < u32::MAX,
                        dom_input(d, t, temporal),
                        d == unit@,
                        t == *pred,
                        all_reachable(d, t),
                        post_order_ok(d, t, order@),
                        d.block_ids().contains(bb.0),
                        preds@ == t.spec_preds(bb)->0,
                        j <= preds@.len(),
                        doms@.len() == length,
                        doms_closed(doms@),
                        forall|b: Block| #[trigger] order@.contains(b) ==> (inv@[b.0 as int] as int) < length
                            && order@[inv@[b.0 as int] as int] == b,
                        new_idom != u32::MAX ==> (new_idom as int) < length && doms@[new_idom as int] != u32::MAX,
                        new_idom == u32::MAX ==> forall|x: int| 0 <= x < j ==> doms@[inv@[(#[trigger] preds@[x]).0 as int] as int] == u32::MAX,
                    decreases preds@.len() - j,
                {
                    let p = preds[j];
                    proof {
                        assert(preds@.contains(p));
                        assert(d.block_ids().contains(p.0));
                        assert(reachable(d, t, p.0));
                        assert(order@.contains(p));
                        d.lemma_block_bound(p.0);
                    }
                    let pi = inv[p.0 as usize];
                    let ghost old_new = new_idom;
                    if doms[pi as usize] != undef {
                        if new_idom == undef {
                            new_idom = pi;
                        } else {
                            new_idom = intersect(&doms, new_idom, pi);
                        }
                    }
                    proof {
                        if new_idom == u32::MAX {
                            assert(old_new == u32::MAX);
                            assert forall|x: int| 0 <= x < j + 1 implies doms@[inv@[(#[trigger] preds@[x]).0 as int] as int] == u32::MAX by {
                                if x == j {
                                    assert(preds@[x] == p);
                                }
                            }
                        }
                    }
                    j = j + 1;
                }
                proof {
                    if new_idom == u32::MAX {
                        let x = preds@.index_of(parent);
                        assert(preds@[x] == parent);
                        assert(doms@[inv@[parent.0 as int] as int] != u32::MAX);
                    }
                }
                let ghost before = doms@;
                if doms[idx] != new_idom {
                    doms.set(idx, new_idom);
                    changed = true;
                }
                proof {
                    assert forall|r: Block| #[trigger] root_seq(d, t).contains(r) implies doms@[inv@[r.0 as int] as int] == inv@[r.0 as int] by {
                        lemma_roots(d, t, r);
                        assert(reachable(d, t, r.0));
                        assert(order@.contains(r));
                        let ri = inv@[r.0 as int];
                        assert((ri as int) < length);
                        assert(before[ri as int] == ri);
                        if ri as int == idx as int {
                            assert(before[idx as int] != idx as u32);
                        }
                    }
                }
            }
        }
        swept = true;
    }
    proof {
        assert forall|j: int| 0 <= j < doms@.len() implies (#[trigger] doms@[j] as int) < doms@.len() by {
            assert(doms@[j] != u32::MAX);
        }
    }
    doms
}

/// A list of distinct blocks below a bound is no longer than the bound.
pub(crate) proof fn lemma_bounded_distinct(s: Seq<Block>, bound: nat)
    requires
        s.no_duplicates(),
        forall|i: int| 0 <= i < s.len() ==> (#[trigger] s[i]).0 < bound,
    ensures
        s.len() <= bound,
{
    let ids = s.map_values(|b: Block| b.0 as int);
    let set = ids.to_set();
    assert(ids.no_duplicates()) by {
        assert forall|a: int, b: int| 0 <= a < b < ids.len() implies ids[a] != ids[b] by {
            assert(s[a] != s[b]);
        }
    }
    ids.unique_seq_to_set();
    assert(set.subset_of(vstd::set_lib::set_int_range(0, bound as int))) by {
        assert forall|x: int| #[trigger] set.contains(x) implies vstd::set_lib::set_int_range(0, bound as int).contains(x) by {
            let i = choose|i: int| 0 <= i < ids.len() && ids[i] == x;
            assert(s[i].0 < bound);
        }
    }
    vstd::set_lib::lemma_int_range(0, bound as int);
    lemma_len_subset(set, vstd::set_lib::set_int_range(0, bound as int));
}


/// The block reached from `b` after `k` steps up an immediate dominator
/// table.
pub open spec fn idom_iter(doms: Seq<Block>, b: Block, k: nat) -> Block
    decreases k,
{
    if k == 0 {
        b
    } else {
        doms[idom_iter(doms, b, (k - 1) as nat).0 as int]
    }
}

/// `a` lies on the path from `b` up the immediate dominator table: it is
/// reached within `bound` steps, and no block before it on the path is its
/// own immediate dominator.
pub open spec fn on_chain(doms: Seq<Block>, b: Block, a: Block, bound: nat) -> bool {
    exists|k: nat|
        k <= bound && #[trigger] idom_iter(doms, b, k) == a && forall|j: nat| j < k ==> doms[idom_iter(doms, b, j).0 as int]
            != #[trigger] idom_iter(doms, b, j)
}

/// A block dominator tree.
///
/// Records for every block which other blocks in the CFG *have* to be
/// traversed to reach it. And vice versa, which blocks a block precedes in
/// all cases.
pub struct DominatorTree {
    /// The blocks each block dominates, indexed by block.
    dominates: Vec<Vec<Block>>,
    /// The blocks that dominate each block, indexed by block.
    dominated: Vec<Vec<Block>>,
    /// The immediate dominator of each block, indexed by block.
    doms: Vec<Block>,
    /// Blocks in post-order.
    post_order: Vec<Block>,
    /// Post-order index for each block.
    inv_post_order: Vec<u32>,
}

impl DominatorTree {
    /// The immediate dominator table, indexed by block id.
    pub closed spec fn spec_doms(&self) -> Seq<Block> {
        self.doms@
    }

    /// The blocks in post-order.
    pub closed spec fn spec_post_order(&self) -> Seq<Block> {
        self.post_order@
    }

    /// The post-order positions, indexed by block id.
    pub closed spec fn spec_order_index(&self) -> Seq<u32> {
        self.inv_post_order@
    }

    /// The recorded dominators of a block.
    pub closed spec fn spec_dominators(&self, b: Block) -> Seq<Block> {
        self.dominated@[b.0 as int]@
    }

    /// The recorded followers of a block.
    pub closed spec fn spec_followers(&self, b: Block) -> Seq<Block> {
        self.dominates@[b.0 as int]@
    }

    /// The number of table entries, one per block id.
    pub closed spec fn spec_len(&self) -> nat {
        self.doms@.len()
    }

    /// The block has an entry in the table, and its immediate dominator
    /// does too.
    pub open spec fn has_idom(&self, b: Block) -> bool {
        &&& (b.0 as int) < self.spec_len()
        &&& (self.spec_doms()[b.0 as int].0 as int) < self.spec_len()
    }

    /// The table is internally consistent.
    pub closed spec fn wf(&self) -> bool {
        &&& self.dominates@.len() == self.doms@.len()
        &&& self.dominated@.len() == self.doms@.len()
        &&& self.inv_post_order@.len() == self.doms@.len()
        &&& self.doms@.len() < u32::MAX
        &&& self.post_order@.len() <= self.doms@.len()
        &&& forall|b: Block| #[trigger] self.has_idom(b) ==> self.has_idom(self.spec_doms()[b.0 as int])
    }

    /// The tree belongs to the unit `d` with the table `t`: it holds the
    /// post-order of the reachable blocks, an immediate dominator for every
    /// block, that is a block itself and maps each root to itself, and the
    /// dominator and follower sets read off the immediate dominator paths.
    pub open spec fn describes(&self, d: UnitData, t: PredecessorTable) -> bool {
        &&& d.wf()
        &&& self.wf()
        &&& self.spec_len() == d.block_bound()
        &&& post_order_ok(d, t, self.spec_post_order())
        &&& inv_ok(self.spec_post_order(), self.spec_order_index(), d.block_bound())
        &&& forall|b: Block| #[trigger] d.block_ids().contains(b.0) ==> d.block_ids().contains(self.spec_doms()[b.0 as int].0)
        &&& forall|r: Block| #[trigger] root_seq(d, t).contains(r) ==> self.spec_doms()[r.0 as int] == r
        &&& forall|b: Block| #[trigger] d.block_ids().contains(b.0) ==> self.spec_dominators(b).no_duplicates()
        &&& forall|b: Block, a: Block| d.block_ids().contains(b.0) ==> (#[trigger] self.spec_dominators(b).contains(a)
            <==> on_chain(self.spec_doms(), b, a, self.spec_post_order().len()))
        &&& forall|a: Block| #[trigger] d.block_ids().contains(a.0) ==> self.spec_followers(a).no_duplicates()
        &&& forall|a: Block, x: Block| (a.0 as int) < self.spec_len() ==> (#[trigger] self.spec_followers(a).contains(x)
            <==> d.block_ids().contains(x.0) && self.spec_dominators(x).contains(a))
        &&& forall|b: Block| #[trigger] d.block_ids().contains(b.0) ==> self.has_idom(b)
    }
}

/// The set of blocks on the path up the immediate dominator table from
/// `b`, each once.
fn chain(doms: &Vec<Block>, b: Block, bound: usize, Ghost(d): Ghost<UnitData>) -> (v: Vec<Block>)
    requires
        d.wf(),
        d.block_ids().contains(b.0),
        doms@.len() == d.block_bound(),
        forall|x: Block| #[trigger] d.block_ids().contains(x.0) ==> d.block_ids().contains(doms@[x.0 as int].0),
        bound < usize::MAX,
    ensures
        v@.no_duplicates(),
        forall|a: Block| #[trigger] v@.contains(a) <==> on_chain(doms@, b, a, bound as nat),
{
    let mut v: Vec<Block> = Vec::new();
    let mut cur = b;
    let mut steps: usize = 0;
    loop
        invariant_except_break
            steps <= bound,
            forall|a: Block| #[trigger] v@.contains(a) <==> exists|k: nat| k < steps && #[trigger] idom_iter(doms@, b, k) == a,
            v@.no_duplicates(),
        invariant
            d.wf(),
            doms@.len() == d.block_bound(),
            forall|x: Block| #[trigger] d.block_ids().contains(x.0) ==> d.block_ids().contains(doms@[x.0 as int].0),
            cur == idom_iter(doms@, b, steps as nat),
            d.block_ids().contains(cur.0),
            forall|j: nat| j < steps ==> doms@[idom_iter(doms@, b, j).0 as int] != #[trigger] idom_iter(doms@, b, j),
        ensures
            v@.no_duplicates(),
            steps <= bound,
            forall|a: Block| #[trigger] v@.contains(a) <==> exists|k: nat| k <= steps && #[trigger] idom_iter(doms@, b, k) == a,
            forall|j: nat| j < steps ==> doms@[idom_iter(doms@, b, j).0 as int] != #[trigger] idom_iter(doms@, b, j),
            steps < bound ==> doms@[idom_iter(doms@, b, steps as nat).0 as int] == idom_iter(doms@, b, steps as nat),
        decreases bound - steps,
    {
        let ghost before = v@;
        proof {
            d.lemma_block_bound(cur.0);
        }
        if !contains_block(&v, cur) {
            v.push(cur);
        }
        proof {
            assert forall|a: Block| #[trigger] v@.contains(a) <==> exists|k: nat| k <= steps && #[trigger] idom_iter(doms@, b, k) == a by {
                if v@.contains(a) && a != cur {
                    let i = choose|i: int| 0 <= i < v@.len() && v@[i] == a;
                    assert(before[i] == a);
                    assert(before.contains(a));
                }
                if a == cur {
                    assert(idom_iter(doms@, b, steps as nat) == a);
                    if !before.contains(cur) {
                        assert(v@[v@.len() - 1] == cur);
                    }
                }
                if exists|k: nat| k <= steps && #[trigger] idom_iter(doms@, b, k) == a {
                    let k = choose|k: nat| k <= steps && #[trigger] idom_iter(doms@, b, k) == a;
                    if k < steps {
                        assert(before.contains(a));
                        let i = choose|i: int| 0 <= i < before.len() && before[i] == a;
                        assert(v@[i] == a);
                    } else {
                        assert(a == cur);
                        if !before.contains(cur) {
                            assert(v@[v@.len() - 1] == cur);
                        }
                    }
                }
            }
        }
        let next = doms[cur.0 as usize];
        if next == cur || steps == bound {
            break;
        }
        cur = next;
        steps = steps + 1;
        proof {
            assert(cur == idom_iter(doms@, b, steps as nat));
            assert forall|j: nat| j < steps implies doms@[idom_iter(doms@, b, j).0 as int] != #[trigger] idom_iter(doms@, b, j) by {
                if j == steps - 1 {
                    assert(idom_iter(doms@, b, j) == idom_iter(doms@, b, (steps - 1) as nat));
                }
            }
            assert forall|a: Block| #[trigger] v@.contains(a) <==> exists|k: nat| k < steps && #[trigger] idom_iter(doms@, b, k) == a by {
                if v@.contains(a) {
                    let k = choose|k: nat| k <= (steps - 1) as nat && #[trigger] idom_iter(doms@, b, k) == a;
                    assert(k < steps);
                }
            }
        }
    }
    proof {
        assert forall|a: Block| #[trigger] v@.contains(a) <==> on_chain(doms@, b, a, bound as nat) by {
            if v@.contains(a) {
                let k = choose|k: nat| k <= steps && #[trigger] idom_iter(doms@, b, k) == a;
                assert forall|j: nat| j < k implies doms@[idom_iter(doms@, b, j).0 as int] != #[trigger] idom_iter(doms@, b, j) by {}
            }
            if on_chain(doms@, b, a, bound as nat) {
                let k = choose|k: nat|
                    k <= bound && #[trigger] idom_iter(doms@, b, k) == a && forall|j: nat| j < k ==> doms@[idom_iter(doms@, b, j).0 as int]
                        != #[trigger] idom_iter(doms@, b, j);
                if k > steps {
                    assert(steps < bound);
                    assert(doms@[idom_iter(doms@, b, steps as nat).0 as int] != idom_iter(doms@, b, steps as nat));
                }
            }
        }
    }
    v
}

/// Every block on a path up an immediate dominator table that maps
/// inserted blocks to inserted blocks is inserted.
proof fn lemma_iter_inserted(d: UnitData, doms: Seq<Block>, b: Block, k: nat)
    requires
        d.block_ids().contains(b.0),
        forall|x: Block| #[trigger] d.block_ids().contains(x.0) ==> d.block_ids().contains(doms[x.0 as int].0),
    ensures
        d.block_ids().contains(idom_iter(doms, b, k).0),
    decreases k,
{
    if k > 0 {
        lemma_iter_inserted(d, doms, b, (k - 1) as nat);
    }
}

/// A chain element is inserted.
proof fn lemma_chain_inserted(d: UnitData, doms: Seq<Block>, b: Block, a: Block, bound: nat)
    requires
        d.block_ids().contains(b.0),
        forall|x: Block| #[trigger] d.block_ids().contains(x.0) ==> d.block_ids().contains(doms[x.0 as int].0),
        on_chain(doms, b, a, bound),
    ensures
        d.block_ids().contains(a.0),
{
    let k = choose|k: nat|
        k <= bound && #[trigger] idom_iter(doms, b, k) == a && forall|j: nat| j < k ==> doms[idom_iter(doms, b, j).0 as int]
            != #[trigger] idom_iter(doms, b, j);
    lemma_iter_inserted(d, doms, b, k);
}

/// The table describes the unit, with or without the edges that leave
/// temporal instructions.
pub open spec fn dom_ready(d: UnitData, t: PredecessorTable) -> bool {
    dom_input(d, t, false) || dom_input(d, t, true)
}

/// A vector of `n` empty lists.
pub(crate) fn empty_lists(n: usize) -> (v: Vec<Vec<Block>>)
    ensures
        v@.len() == n,
        forall|i: int| 0 <= i < n ==> (#[trigger] v@[i])@ == Seq::<Block>::empty(),
{
    let mut v: Vec<Vec<Block>> = Vec::new();
    let mut k: usize = 0;
    while k < n
        invariant
            k <= n,
            v@.len() == k,
            forall|i: int| 0 <= i < k ==> (#[trigger] v@[i])@ == Seq::<Block>::empty(),
        decreases n - k,
    {
        v.push(Vec::new());
        k = k + 1;
    }
    v
}

impl DominatorTree {
    /// Compute the dominator tree of a function or process.
    ///
    /// The tree follows the algorithm of Cooper, Harvey, and Kennedy, "A
    /// Simple, Fast Dominance Algorithm": immediate dominators are refined
    /// in reverse post-order until nothing changes.
    pub fn new(unit: Unit, pred: &PredecessorTable) -> (t: Self)
        requires
            dom_ready(unit@, *pred),
            all_reachable(unit@, *pred),
        ensures
            t.describes(unit@, *pred),
    {
        let ghost d = unit@;
        let ghost tt = *pred;
        let ghost temporal = !dom_input(d, tt, false);
        let order = compute_blocks_post_order(unit, pred, Ghost(temporal));
        let bound = unit.block_id_bound();
        let length = order.len();
        proof {
            assert(order@.len() <= d.block_bound()) by {
                assert forall|i: int| 0 <= i < order@.len() implies (#[trigger] order@[i]).0 < d.block_bound() by {
                    assert(order@.contains(order@[i]));
                    d.lemma_block_bound(order@[i].0);
                }
                lemma_bounded_distinct(order@, d.block_bound());
            }
            d.lemma_block_bound(d.block_ids()[0]);
        }
        let mut inv: Vec<u32> = Vec::new();
        let mut k: usize = 0;
        while k < bound
            invariant
                k <= bound,
                inv@.len() == k,
            decreases bound - k,
        {
            inv.push(u32::MAX);
            k = k + 1;
        }
        let mut i: usize = 0;
        while i < length
            invariant
                d.wf(),
                length == order@.len(),
                length <= bound,
                bound == d.block_bound(),
                bound + 1 < u32::MAX,
                post_order_ok(d, tt, order@),
                i <= length,
                inv@.len() == bound,
                forall|j: int| 0 <= j < i ==> (#[trigger] order@[j]).0 < bound && inv@[order@[j].0 as int] == j,
            decreases length - i,
        {
            let bb = order[i];
            proof {
                assert(order@.contains(bb));
                d.lemma_block_bound(bb.0);
            }
            inv.set(bb.0 as usize, i as u32);
            proof {
                assert forall|j: int| 0 <= j < i + 1 implies (#[trigger] order@[j]).0 < bound && inv@[order@[j].0 as int] == j by {
                    if j < i {
                        assert(order@[j] != order@[i as int]);
                    }
                }
            }
            i = i + 1;
        }
        let doms = compute_idoms(unit, pred, &order, &inv, Ghost(temporal));
        let mut doms_final: Vec<Block> = Vec::new();
        let mut k: usize = 0;
        while k < bound
            invariant
                k <= bound,
                doms_final@.len() == k,
                forall|x: int| 0 <= x < k ==> #[trigger] doms_final@[x] == Block(u32::MAX),
            decreases bound - k,
        {
            doms_final.push(Block::invalid());
            k = k + 1;
        }
        proof {
            assert(order@.subrange(0, 0) =~= Seq::<Block>::empty());
        }
        let mut i: usize = 0;
        while i < length
            invariant
                d.wf(),
                length == order@.len(),
                bound == d.block_bound(),
                post_order_ok(d, tt, order@),
                inv_ok(order@, inv@, bound as nat),
                doms@.len() == length,
                forall|j: int| 0 <= j < doms@.len() ==> (#[trigger] doms@[j] as int) < doms@.len(),
                i <= length,
                doms_final@.len() == bound,
                forall|j: int| 0 <= j < i ==> doms_final@[(#[trigger] order@[j]).0 as int] == order@[doms@[j] as int],
                forall|x: int| 0 <= x < bound && !order@.subrange(0, i as int).contains(Block(x as u32)) ==> #[trigger] doms_final@[x]
                    == Block(u32::MAX),
            decreases length - i,
        {
            let bb = order[i];
            proof {
                assert(order@.contains(bb));
                d.lemma_block_bound(bb.0);
                assert(inv@[bb.0 as int] == i);
            }
            let target = order[doms[inv[bb.0 as usize] as usize] as usize];
            let ghost before = doms_final@;
            doms_final.set(bb.0 as usize, target);
            proof {
                let o1 = order@.subrange(0, i + 1);
                let o0 = order@.subrange(0, i as int);
                assert forall|x: int| 0 <= x < bound && !o1.contains(Block(x as u32)) implies #[trigger] doms_final@[x] == Block(u32::MAX) by {
                    if o0.contains(Block(x as u32)) {
                        let w = choose|w: int| 0 <= w < o0.len() && o0[w] == Block(x as u32);
                        assert(o1[w] == Block(x as u32));
                    }
                    assert(o1[i as int] == bb);
                    assert(x != bb.0 as int);
                    assert(doms_final@[x] == before[x]);
                }
                assert forall|j: int| 0 <= j < i + 1 implies doms_final@[(#[trigger] order@[j]).0 as int] == order@[doms@[j] as int] by {
                    if j < i {
                        assert(order@[j] != order@[i as int]);
                    }
                }
            }
            i = i + 1;
        }
        proof {
            assert forall|b: Block| #[trigger] d.block_ids().contains(b.0) implies d.block_ids().contains(doms_final@[b.0 as int].0) by {
                assert(reachable(d, tt, b.0));
                assert(order@.contains(b));
                let j = order@.index_of(b);
                assert(order@[j] == b);
                assert(doms_final@[b.0 as int] == order@[doms@[j] as int]);
                assert(order@.contains(order@[doms@[j] as int]));
            }
            assert(order@.subrange(0, i as int) =~= order@);
            assert forall|r: Block| #[trigger] root_seq(d, tt).contains(r) implies doms_final@[r.0 as int] == r by {
                lemma_roots(d, tt, r);
                assert(reachable(d, tt, r.0));
                assert(order@.contains(r));
                let j = order@.index_of(r);
                assert(order@[j] == r);
                assert(inv@[r.0 as int] == j);
            }
        }
        let bbs = unit.blocks();
        let ghost ids = d.block_ids();
        proof {
            d.lemma_distinct(Block(0));
        }
        let mut dominated = empty_lists(bound);
        let mut k: usize = 0;
        while k < bbs.len()
            invariant
                d.wf(),
                d == unit@,
                ids == d.block_ids(),
                ids.no_duplicates(),
                bbs@ == as_blocks(ids),
                k <= bbs@.len(),
                bound == d.block_bound(),
                length == order@.len(),
                length <= bound,
                doms_final@.len() == bound,
                forall|x: Block| #[trigger] d.block_ids().contains(x.0) ==> d.block_ids().contains(doms_final@[x.0 as int].0),
                dominated@.len() == bound,
                forall|j: int| 0 <= j < k ==> (#[trigger] dominated@[ids[j] as int])@.no_duplicates(),
                forall|j: int, a: Block| 0 <= j < k ==> (#[trigger] dominated@[ids[j] as int]@.contains(a)
                    <==> on_chain(doms_final@, Block(ids[j]), a, length as nat)),
            decreases bbs@.len() - k,
        {
            let bb = bbs[k];
            proof {
                assert(ids[k as int] == bb.0);
                assert(d.block_ids().contains(bb.0));
                d.lemma_block_bound(bb.0);
            }
            let ch = chain(&doms_final, bb, length, Ghost(d));
            let ghost chv = ch@;
            let ghost before = dominated@;
            dominated.set(bb.0 as usize, ch);
            proof {
                assert forall|j: int| 0 <= j < k + 1 implies (#[trigger] dominated@[ids[j] as int])@.no_duplicates()
                    && forall|a: Block| dominated@[ids[j] as int]@.contains(a) <==> on_chain(doms_final@, Block(ids[j]), a, length as nat) by {
                    if j < k {
                        assert(ids[j] != ids[k as int]);
                        assert(d.block_ids().contains(ids[j]));
                        d.lemma_block_bound(ids[j]);
                        assert(dominated@[ids[j] as int] == before[ids[j] as int]);
                    } else {
                        assert(dominated@[ids[j] as int]@ == chv);
                    }
                }
                assert forall|j: int, a: Block| 0 <= j < k + 1 implies (#[trigger] dominated@[ids[j] as int]@.contains(a)
                    <==> on_chain(doms_final@, Block(ids[j]), a, length as nat)) by {
                    if j < k {
                        assert(ids[j] != ids[k as int]);
                    }
                }
            }
            k = k + 1;
        }
        let mut dominates = empty_lists(bound);
        let mut k: usize = 0;
        while k < bbs.len()
            invariant
                d.wf(),
                ids == d.block_ids(),
                ids.no_duplicates(),
                bbs@ == as_blocks(ids),
                k <= bbs@.len(),
                bound == d.block_bound(),
                length == order@.len(),
                doms_final@.len() == bound,
                forall|x: Block| #[trigger] d.block_ids().contains(x.0) ==> d.block_ids().contains(doms_final@[x.0 as int].0),
                dominated@.len() == bound,
                forall|j: int| 0 <= j < ids.len() ==> (#[trigger] dominated@[ids[j] as int])@.no_duplicates(),
                forall|j: int, a: Block| 0 <= j < ids.len() ==> (#[trigger] dominated@[ids[j] as int]@.contains(a)
                    <==> on_chain(doms_final@, Block(ids[j]), a, length as nat)),
                dominates@.len() == bound,
                forall|a: int| 0 <= a < bound ==> (#[trigger] dominates@[a])@.no_duplicates(),
                forall|a: int, x: Block| 0 <= a < bound ==> (#[trigger] dominates@[a]@.contains(x) <==> (
                    ids.subrange(0, k as int).contains(x.0) && dominated@[x.0 as int]@.contains(Block(a as u32)))),
            decreases bbs@.len() - k,
        {
            let bb = bbs[k];
            proof {
                assert(ids[k as int] == bb.0);
                assert(d.block_ids().contains(bb.0));
                d.lemma_block_bound(bb.0);
            }
            let ch = dominated[bb.0 as usize].clone();
            proof {
                assert(ch@ == dominated@[ids[k as int] as int]@);
                assert forall|a: Block| #[trigger] ch@.contains(a) implies d.block_ids().contains(a.0) by {
                    assert(dominated@[ids[k as int] as int]@.contains(a));
                    lemma_chain_inserted(d, doms_final@, bb, a, length as nat);
                }
            }
            let mut j: usize = 0;
            while j < ch.len()
                invariant
                    d.wf(),
                    ids == d.block_ids(),
                    ids.no_duplicates(),
                    k < ids.len(),
                    ids[k as int] == bb.0,
                    bound == d.block_bound(),
                    j <= ch@.len(),
                    ch@ == dominated@[bb.0 as int]@,
                    ch@.no_duplicates(),
                    forall|a: Block| #[trigger] ch@.contains(a) ==> d.block_ids().contains(a.0),
                    dominated@.len() == bound,
                    dominates@.len() == bound,
                    forall|a: int| 0 <= a < bound ==> (#[trigger] dominates@[a])@.no_duplicates(),
                    forall|a: int, x: Block| 0 <= a < bound ==> (#[trigger] dominates@[a]@.contains(x) <==> (
                        (ids.subrange(0, k as int).contains(x.0) && dominated@[x.0 as int]@.contains(Block(a as u32)))
                        || (x == bb && ch@.subrange(0, j as int).contains(Block(a as u32))))),
                decreases ch@.len() - j,
            {
                let dm = ch[j];
                proof {
                    assert(ch@.contains(dm));
                    d.lemma_block_bound(dm.0);
                }
                let ghost before = dominates@;
                dominates[dm.0 as usize].push(bb);
                proof {
                    let c1 = ch@.subrange(0, j + 1);
                    let c0 = ch@.subrange(0, j as int);
                    let s0 = ids.subrange(0, k as int);
                    assert(!before[dm.0 as int]@.contains(bb)) by {
                        if before[dm.0 as int]@.contains(bb) {
                            if s0.contains(bb.0) {
                                let w = choose|w: int| 0 <= w < s0.len() && s0[w] == bb.0;
                                assert(ids[w] == ids[k as int]);
                            } else {
                                let w = choose|w: int| 0 <= w < c0.len() && c0[w] == dm;
                                assert(ch@[w] == ch@[j as int]);
                            }
                        }
                    }
                    assert forall|a: int| 0 <= a < bound implies (#[trigger] dominates@[a])@.no_duplicates() by {
                        if a == dm.0 as int {
                            assert forall|x: int, y: int| 0 <= x < y < dominates@[a]@.len() implies dominates@[a]@[x] != dominates@[a]@[y] by {
                                if y == before[a]@.len() {
                                    assert(before[a]@.contains(dominates@[a]@[x]));
                                }
                            }
                        }
                    }
                    assert forall|a: int, x: Block| 0 <= a < bound implies (#[trigger] dominates@[a]@.contains(x) <==> (
                        (s0.contains(x.0) && dominated@[x.0 as int]@.contains(Block(a as u32)))
                        || (x == bb && c1.contains(Block(a as u32))))) by {
                        if c0.contains(Block(a as u32)) {
                            let w = choose|w: int| 0 <= w < c0.len() && c0[w] == Block(a as u32);
                            assert(c1[w] == Block(a as u32));
                        }
                        if c1.contains(Block(a as u32)) {
                            let w = choose|w: int| 0 <= w < c1.len() && c1[w] == Block(a as u32);
                            if w < j {
                                assert(c0[w] == Block(a as u32));
                            } else {
                                assert(Block(a as u32) == dm);
                            }
                        }
                        if a == dm.0 as int {
                            assert(c1[j as int] == dm);
                            if dominates@[a]@.contains(x) && x != bb {
                                let w = choose|w: int| 0 <= w < dominates@[a]@.len() && dominates@[a]@[w] == x;
                                assert(before[a]@[w] == x);
                            }
                            if before[a]@.contains(x) {
                                let w = choose|w: int| 0 <= w < before[a]@.len() && before[a]@[w] == x;
                                assert(dominates@[a]@[w] == x);
                            }
                            if x == bb {
                                assert(dominates@[a]@[before[a]@.len() as int] == bb);
                            }
                        }
                    }
                }
                j = j + 1;
            }
            proof {
                let s1 = ids.subrange(0, k + 1);
                let s0 = ids.subrange(0, k as int);
                assert(ch@.subrange(0, j as int) =~= ch@);
                assert forall|a: int, x: Block| 0 <= a < bound implies (#[trigger] dominates@[a]@.contains(x) <==> (
                    s1.contains(x.0) && dominated@[x.0 as int]@.contains(Block(a as u32)))) by {
                    if s1.contains(x.0) {
                        let w = choose|w: int| 0 <= w < s1.len() && s1[w] == x.0;
                        if w < k {
                            assert(s0[w] == x.0);
                        } else {
                            assert(x == bb);
                        }
                    }
                    if s0.contains(x.0) {
                        let w = choose|w: int| 0 <= w < s0.len() && s0[w] == x.0;
                        assert(s1[w] == x.0);
                    }
                    if x == bb {
                        assert(s1[k as int] == bb.0);
                    }
                }
            }
            k = k + 1;
        }
        let t = DominatorTree { dominates, dominated, doms: doms_final, post_order: order, inv_post_order: inv };
        proof {
            assert(ids.subrange(0, k as int) =~= ids);
            assert forall|b: Block| #[trigger] d.block_ids().contains(b.0) implies t.spec_dominators(b).no_duplicates() by {
                let j = ids.index_of(b.0);
                assert(ids[j] == b.0);
            }
            assert forall|b: Block, a: Block| d.block_ids().contains(b.0) implies (#[trigger] t.spec_dominators(b).contains(a)
                <==> on_chain(t.spec_doms(), b, a, t.spec_post_order().len())) by {
                let j = ids.index_of(b.0);
                assert(ids[j] == b.0);
            }
            assert forall|a: Block| #[trigger] d.block_ids().contains(a.0) implies t.spec_followers(a).no_duplicates() by {
                d.lemma_block_bound(a.0);
            }
            assert forall|a: Block, x: Block| (a.0 as int) < t.spec_len() implies (#[trigger] t.spec_followers(a).contains(x)
                <==> d.block_ids().contains(x.0) && t.spec_dominators(x).contains(a)) by {
                assert(Block(a.0 as u32) == a);
                if t.spec_followers(a).contains(x) {
                    assert(ids.contains(x.0));
                }
                if d.block_ids().contains(x.0) && t.spec_dominators(x).contains(a) {
                    let j = ids.index_of(x.0);
                    assert(ids[j] == x.0);
                }
            }
            assert forall|b: Block| #[trigger] t.has_idom(b) implies t.has_idom(t.spec_doms()[b.0 as int]) by {
                let x = doms_final@[b.0 as int];
                if !d.block_ids().contains(b.0) {
                    if !order@.contains(Block(b.0)) {
                        assert(doms_final@[b.0 as int] == Block(u32::MAX));
                    } else {
                        assert(d.block_ids().contains(b.0));
                    }
                }
                d.lemma_block_bound(x.0);
                assert(d.block_ids().contains(doms_final@[x.0 as int].0));
                d.lemma_block_bound(doms_final@[x.0 as int].0);
            }
            assert forall|b: Block| #[trigger] d.block_ids().contains(b.0) implies t.has_idom(b) by {
                d.lemma_block_bound(b.0);
                d.lemma_block_bound(doms_final@[b.0 as int].0);
            }
        }
        t
    }
}


impl DominatorTree {
    /// Get the blocks in the original CFG in post-order.
    pub fn blocks_post_order(&self) -> (s: &[Block])
        ensures
            s@ == self.spec_post_order(),
    {
        self.post_order.as_slice()
    }

    /// Get the post-order index of a block.
    pub fn block_order(&self, block: Block) -> (i: usize)
        requires
            self.wf(),
            (block.0 as int) < self.spec_len(),
        ensures
            i == self.spec_order_index()[block.0 as int],
    {
        self.inv_post_order[block.0 as usize] as usize
    }

    /// Check if a block dominates another.
    pub fn dominates(&self, dominator: Block, follower: Block) -> (b: bool)
        requires
            self.wf(),
        ensures
            b == ((dominator.0 as int) < self.spec_len() && self.spec_followers(dominator).contains(follower)),
    {
        if (dominator.0 as usize) < self.dominates.len() {
            contains_block(&self.dominates[dominator.0 as usize], follower)
        } else {
            false
        }
    }

    /// Get the immediate dominator of a block.
    pub fn dominator(&self, block: Block) -> (d: Block)
        requires
            (block.0 as int) < self.spec_len(),
        ensures
            d == self.spec_doms()[block.0 as int],
    {
        self.doms[block.0 as usize]
    }

    /// Get the dominators of a block.
    pub fn dominators(&self, follower: Block) -> (s: &Vec<Block>)
        requires
            self.wf(),
            (follower.0 as int) < self.spec_len(),
        ensures
            s@ == self.spec_dominators(follower),
    {
        &self.dominated[follower.0 as usize]
    }

    /// Get the followers of a block, i.e. the blocks it dominates.
    pub fn dominated_by(&self, dominator: Block) -> (s: &Vec<Block>)
        requires
            self.wf(),
            (dominator.0 as int) < self.spec_len(),
        ensures
            s@ == self.spec_followers(dominator),
    {
        &self.dominates[dominator.0 as usize]
    }

    /// Check if a block dominates another block, by walking up the
    /// immediate dominators of the child.
    ///
    /// The walk takes at most as many steps as there are blocks in the
    /// post-order.
    pub fn block_dominates_block(&self, parent: Block, child: Block) -> (b: bool)
        requires
            self.wf(),
            self.has_idom(child),
        ensures
            b == on_chain(self.spec_doms(), child, parent, self.spec_post_order().len()),
    {
        let bound = self.post_order.len();
        let ghost doms = self.spec_doms();
        let mut c = child;
        let mut steps: usize = 0;
        loop
            invariant
                self.wf(),
                doms == self.spec_doms(),
                bound == self.spec_post_order().len(),
                steps <= bound,
                c == idom_iter(doms, child, steps as nat),
                self.has_idom(c),
                forall|j: nat| j < steps ==> doms[idom_iter(doms, child, j).0 as int] != #[trigger] idom_iter(doms, child, j),
                forall|j: nat| j < steps ==> #[trigger] idom_iter(doms, child, j) != parent,
            decreases bound - steps,
        {
            if parent == c {
                proof {
                    assert(idom_iter(doms, child, steps as nat) == parent);
                }
                return true;
            }
            let next = self.doms[c.0 as usize];
            if next == c || steps == bound {
                proof {
                    assert(!on_chain(doms, child, parent, bound as nat)) by {
                        if on_chain(doms, child, parent, bound as nat) {
                            let k = choose|k: nat|
                                k <= bound && #[trigger] idom_iter(doms, child, k) == parent && forall|j: nat| j < k ==> doms[idom_iter(
                                    doms,
                                    child,
                                    j,
                                ).0 as int] != #[trigger] idom_iter(doms, child, j);
                            if k > steps {
                                assert(doms[idom_iter(doms, child, steps as nat).0 as int] != idom_iter(doms, child, steps as nat));
                            }
                        }
                    }
                }
                return false;
            }
            c = next;
            steps = steps + 1;
            proof {
                assert(c == idom_iter(doms, child, steps as nat));
                assert forall|j: nat| j < steps implies doms[idom_iter(doms, child, j).0 as int] != #[trigger] idom_iter(doms, child, j)
                    && idom_iter(doms, child, j) != parent by {
                    if j == steps - 1 {
                        assert(idom_iter(doms, child, j) == idom_iter(doms, child, (steps - 1) as nat));
                    }
                }
            }
        }
    }

    /// Check if an instruction dominates a block: the block of the
    /// instruction dominates it.
    pub fn inst_dominates_block(&self, unit: Unit, inst: Inst, block: Block) -> (b: bool)
        requires
            unit@.wf(),
            self.wf(),
            self.has_idom(block),
        ensures
            b == (match unit@.inst_home(inst) {
                Some(bb) => on_chain(self.spec_doms(), block, bb, self.spec_post_order().len()),
                None => false,
            }),
    {
        match unit.inst_block(inst) {
            Some(bb) => self.block_dominates_block(bb, block),
            None => false,
        }
    }

    /// Check if a value dominates a block: an argument dominates every
    /// block, and an instruction result the blocks its instruction
    /// dominates.
    pub fn value_dominates_block(&self, unit: Unit, value: Value, block: Block) -> (b: bool)
        requires
            unit@.wf(),
            self.wf(),
            self.has_idom(block),
            unit@.spec_value(value) is Some,
        ensures
            b == (match unit@.spec_value(value)->0 {
                ValueData::Inst { inst, .. } => match unit@.inst_home(inst) {
                    Some(bb) => on_chain(self.spec_doms(), block, bb, self.spec_post_order().len()),
                    None => false,
                },
                ValueData::Arg { .. } => true,
                _ => false,
            }),
    {
        match unit.get_value_inst(value) {
            Some(inst) => self.inst_dominates_block(unit, inst, block),
            None => match unit.get_value_arg(value) {
                Some(_) => true,
                None => false,
            },
        }
    }
}

/// The views of dominance agree: a block dominates another exactly if it is
/// among the other's dominators, if it is on the path up the immediate
/// dominators from the other, and if the other is among its followers.
/// Every block dominates itself and is dominated by its immediate
/// dominator, and the entry block is dominated by itself alone.
pub proof fn lemma_dominance_views(tree: DominatorTree, d: UnitData, t: PredecessorTable, a: Block, b: Block)
    requires
        tree.describes(d, t),
        d.block_ids().contains(a.0),
        d.block_ids().contains(b.0),
    ensures
        tree.spec_followers(a).contains(b) <==> tree.spec_dominators(b).contains(a),
        tree.spec_dominators(b).contains(a) <==> on_chain(tree.spec_doms(), b, a, tree.spec_post_order().len()),
        tree.spec_dominators(b).contains(b),
        tree.spec_dominators(b).contains(tree.spec_doms()[b.0 as int]),
        b.0 == d.block_ids()[0] ==> (tree.spec_dominators(b).contains(a) <==> a == b),
{
    d.lemma_block_bound(a.0);
    let doms = tree.spec_doms();
    let n = tree.spec_post_order().len();
    assert(idom_iter(doms, b, 0) == b);
    assert(on_chain(doms, b, b, n));
    lemma_roots(d, t, b);
    assert(reachable(d, t, d.block_ids()[0])) by {
        lemma_roots(d, t, Block(d.block_ids()[0]));
        assert forall|s: Set<u32>| #[trigger] closed_set(d, t, s) implies s.contains(d.block_ids()[0]) by {
            assert(root_seq(d, t).contains(Block(d.block_ids()[0])));
        }
    }
    assert(tree.spec_post_order().contains(Block(d.block_ids()[0])));
    assert(n > 0);
    if doms[b.0 as int] == b {
        assert(tree.spec_dominators(b).contains(doms[b.0 as int]));
    } else {
        assert(idom_iter(doms, b, 1) == doms[b.0 as int]);
        assert forall|j: nat| j < 1 implies doms[idom_iter(doms, b, j).0 as int] != #[trigger] idom_iter(doms, b, j) by {
            assert(j == 0);
        }
        assert(on_chain(doms, b, doms[b.0 as int], n));
    }
    if b.0 == d.block_ids()[0] {
        lemma_roots(d, t, b);
        assert(doms[b.0 as int] == b);
        if on_chain(doms, b, a, n) {
            let k = choose|k: nat|
                k <= n && #[trigger] idom_iter(doms, b, k) == a && forall|j: nat| j < k ==> doms[idom_iter(doms, b, j).0 as int]
                    != #[trigger] idom_iter(doms, b, j);
            if k > 0 {
                assert(idom_iter(doms, b, 0) == b);
                assert(doms[idom_iter(doms, b, 0).0 as int] != idom_iter(doms, b, 0));
            }
        }
    }
}


/// # Analyses
impl<'a> Unit<'a> {
    /// Compute the unit's dominator tree, given its predecessor table.
    pub fn domtree_with_predtbl(self, pt: &PredecessorTable) -> (t: DominatorTree)
        requires
            dom_ready(self@, *pt),
            all_reachable(self@, *pt),
        ensures
            t.describes(self@, *pt),
    {
        DominatorTree::new(self, pt)
    }

    /// Compute the unit's dominator tree.
    pub fn domtree(self) -> (t: DominatorTree)
        requires
            self@.wf(),
            self@.targets_inserted(),
            self@.block_ids().len() > 0,
            self@.block_bound() < bitset_limit(),
            forall|pt: PredecessorTable| pt.wf() && #[trigger] pt.describes(self@, false) ==> all_reachable(self@, pt),
        ensures
            exists|pt: PredecessorTable| pt.wf() && pt.describes(self@, false) && #[trigger] t.describes(self@, pt),
    {
        let pt = self.predtbl();
        let t = DominatorTree::new(self, &pt);
        proof {
            assert(t.describes(self@, pt));
        }
        t
    }

    /// Compute the unit's temporal dominator tree, which leaves out the
    /// edges that leave temporal instructions.
    pub fn temporal_domtree(self) -> (t: DominatorTree)
        requires
            self@.wf(),
            self@.targets_inserted(),
            self@.block_ids().len() > 0,
            self@.block_bound() < bitset_limit(),
            forall|pt: PredecessorTable| pt.wf() && #[trigger] pt.describes(self@, true) ==> all_reachable(self@, pt),
        ensures
            exists|pt: PredecessorTable| pt.wf() && pt.describes(self@, true) && #[trigger] t.describes(self@, pt),
    {
        let pt = self.temporal_predtbl();
        let t = DominatorTree::new(self, &pt);
        proof {
            assert(t.describes(self@, pt));
        }
        t
    }
}

} // verus!
