use llhd::analysis::domtree::DominatorTree;
use llhd::analysis::preds::PredecessorTable;
use llhd::analysis::trg::TemporalRegionGraph;
use llhd::ir::keys::Block;
use llhd::ir::sig::Signature;
use llhd::ir::unit::{Unit, UnitBuilder, UnitData, UnitKind, UnitName};
use llhd::konst::ConstInt;
use num::BigInt;

/// A process with a diamond: `bb0` branches to `bb1` or `bb2`, both of
/// which go to `bb3`, which waits and then starts over at `bb0`.
fn diamond() -> (UnitData, [Block; 4]) {
    let data = UnitData::new(UnitKind::Process, UnitName::local("p"), Signature::new());
    let mut b = UnitBuilder::new_anonymous(data);
    let bb0 = b.block();
    let bb1 = b.block();
    let bb2 = b.block();
    let bb3 = b.block();
    b.append_to(bb0);
    let c = b.const_int(ConstInt::new(1, BigInt::from(0)));
    b.br_cond(c, bb1, bb2);
    b.append_to(bb1);
    b.br(bb3);
    b.append_to(bb2);
    b.br(bb3);
    b.append_to(bb3);
    b.wait(bb0, vec![]);
    (b.finish(), [bb0, bb1, bb2, bb3])
}

#[test]
fn predecessors() {
    let (data, bbs) = diamond();
    let u = Unit::new_anonymous(&data);
    let pt = PredecessorTable::new(u);
    let mut p3 = pt.pred(bbs[3]);
    p3.sort();
    assert_eq!(p3, vec![bbs[1], bbs[2]]);
    let mut s0 = pt.succ(bbs[0]);
    s0.sort();
    assert_eq!(s0, vec![bbs[1], bbs[2]]);
    assert_eq!(pt.pred(bbs[0]), vec![bbs[3]]);
    assert!(pt.is_sole_pred(bbs[0], bbs[1]));
    assert!(!pt.is_sole_pred(bbs[1], bbs[3]));
    assert!(pt.is_sole_succ(bbs[3], bbs[1]));
    // Without the edge that leaves the wait, the entry has no predecessor.
    let tpt = PredecessorTable::new_temporal(u);
    assert_eq!(tpt.pred(bbs[0]), Vec::<Block>::new());
    assert_eq!(u.predtbl().pred(bbs[0]), vec![bbs[3]]);
}

#[test]
fn dominators() {
    let (data, bbs) = diamond();
    let u = Unit::new_anonymous(&data);
    let pt = PredecessorTable::new_temporal(u);
    let dt = DominatorTree::new(u, &pt);
    assert_eq!(dt.dominator(bbs[0]), bbs[0]);
    assert_eq!(dt.dominator(bbs[1]), bbs[0]);
    assert_eq!(dt.dominator(bbs[2]), bbs[0]);
    assert_eq!(dt.dominator(bbs[3]), bbs[0]);
    assert!(dt.dominates(bbs[0], bbs[3]));
    assert!(!dt.dominates(bbs[1], bbs[3]));
    assert!(dt.dominates(bbs[3], bbs[3]));
    assert!(dt.block_dominates_block(bbs[0], bbs[2]));
    assert!(!dt.block_dominates_block(bbs[2], bbs[1]));
    let mut dom3 = dt.dominators(bbs[3]).clone();
    dom3.sort();
    assert_eq!(dom3, vec![bbs[0], bbs[3]]);
    let mut by0 = dt.dominated_by(bbs[0]).clone();
    by0.sort();
    assert_eq!(by0, vec![bbs[0], bbs[1], bbs[2], bbs[3]]);
    assert_eq!(dt.blocks_post_order().len(), 4);
    assert_eq!(*dt.blocks_post_order().last().unwrap(), bbs[0]);
    assert_eq!(dt.block_order(bbs[0]), 3);
}

#[test]
fn temporal_regions() {
    let (data, bbs) = diamond();
    let u = Unit::new_anonymous(&data);
    let trg = TemporalRegionGraph::new(u);
    let r0 = trg.region(bbs[0]);
    // The diamond is one region: its entry is the target of the wait.
    for bb in bbs.iter() {
        assert_eq!(trg.region(*bb), r0);
    }
    assert!(trg.is_head(bbs[0]));
    assert!(!trg.is_head(bbs[1]));
    assert!(trg.is_tail(bbs[3]));
    assert!(!trg.is_tail(bbs[0]));
    let d = trg.data(r0);
    assert_eq!(d.head_blocks(), vec![bbs[0]]);
    assert_eq!(d.tail_blocks(), vec![bbs[3]]);
    assert_eq!(trg.regions().len(), 1);
}
