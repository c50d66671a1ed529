//! Exercises the announcement-class lifecycle: ingestion and rotation,
//! the steal protocol and its mining latch, dependent-link invalidation,
//! aggregation, and the work-degradation policy.

use packetcrypt_blkmine::ann_buf::AnnBuf;
use packetcrypt_blkmine::ann_buf::AnnData;
use packetcrypt_blkmine::ann_buf::Digest;
use packetcrypt_blkmine::ann_class::AlreadyMining;
use packetcrypt_blkmine::ann_class::AnnClass;
use packetcrypt_blkmine::ann_class::HashTree;
use packetcrypt_blkmine::ann_class::HeightWork;
use packetcrypt_blkmine::prooftree::ProofTree;

fn ann(v: u64) -> AnnData {
    AnnData { hash: Digest(v), index: v as u32 }
}

fn batch(vals: &[u64]) -> Vec<AnnData> {
    vals.iter().map(|v| ann(*v)).collect()
}

fn filled_buf(cap: usize, vals: &[u64], lock: bool) -> AnnBuf {
    let mut b = AnnBuf::new(cap);
    let bt = batch(vals);
    let consumed = b.push_anns(&bt, 0);
    assert_eq!(consumed, vals.len());
    if lock {
        b.lock();
    }
    b
}

fn hw() -> HeightWork {
    HeightWork { block_height: 100, work: 0x1f00ffff }
}

#[test]
fn push_within_capacity_returns_spare() {
    let mut class = AnnClass::new(Some(AnnBuf::new(4)), Vec::new(), &hw(), 1);
    let (consumed, spare) = class.push_anns(&batch(&[1, 2]), AnnBuf::new(4));
    assert_eq!(consumed, 2);
    assert!(spare.is_some());
    assert_eq!(class.ready_anns(), 0);
    assert!(!class.is_dead());
}

#[test]
fn push_rotates_full_buffer() {
    // one empty active buffer of capacity 4, no frozen buffers; pushing 6
    // records with one spare fills and freezes the active buffer and lands
    // the remaining 2 in the new active buffer
    let mut class = AnnClass::new(Some(AnnBuf::new(4)), Vec::new(), &hw(), 1);
    let (consumed, spare) = class.push_anns(&batch(&[1, 2, 3, 4, 5, 6]), AnnBuf::new(4));
    assert_eq!(consumed, 6);
    assert!(spare.is_none());
    assert_eq!(class.ready_anns(), 4);
    assert_eq!(class.ready_anns_bufs(), (4, 1));
}

#[test]
fn push_reports_partial_count_when_capacity_runs_out() {
    let mut class = AnnClass::new(Some(AnnBuf::new(4)), Vec::new(), &hw(), 1);
    let big = batch(&[1, 2, 3, 4, 5, 6, 7, 8, 9, 10]);
    let (consumed, spare) = class.push_anns(&big, AnnBuf::new(4));
    assert_eq!(consumed, 8);
    assert!(spare.is_none());
    assert_eq!(class.ready_anns(), 4);
    // the caller supplies more capacity and retries the remainder
    let rest = batch(&[9, 10]);
    let (consumed2, spare2) = class.push_anns(&rest, AnnBuf::new(4));
    assert_eq!(consumed2, 2);
    assert!(spare2.is_none());
    assert_eq!(class.ready_anns(), 8);
}

#[test]
fn push_revives_drained_class_with_spare() {
    let mut class = AnnClass::new(None, Vec::new(), &hw(), 1);
    assert!(class.is_dead());
    let (consumed, spare) = class.push_anns(&batch(&[7, 8, 9]), AnnBuf::new(4));
    assert_eq!(consumed, 3);
    assert!(spare.is_none());
    assert!(!class.is_dead());
    assert_eq!(class.ready_anns(), 0);
}

#[test]
fn steal_refused_while_mining() {
    let bufs = vec![filled_buf(8, &[1, 2, 3], true)];
    let mut class = AnnClass::new(Some(AnnBuf::new(8)), bufs, &hw(), 1);
    let mut trees: Vec<ProofTree> = Vec::new();
    class.set_mining(true);
    assert!(matches!(class.steal_buf(&mut trees), Err(AlreadyMining)));
    // nothing moved while the latch was held
    assert_eq!(class.ready_anns(), 3);
    class.set_mining(false);
    let stolen = class.steal_buf(&mut trees).unwrap().unwrap();
    assert_eq!(stolen.next_ann_index(), 3);
}

#[test]
fn steal_takes_newest_frozen_buffer() {
    // two frozen buffers of fill counts 3 and 5: the steal removes the
    // last-in buffer (count 5) and leaves the one of count 3
    let bufs = vec![filled_buf(8, &[1, 2, 3], true), filled_buf(8, &[4, 5, 6, 7, 8], true)];
    let mut class = AnnClass::new(Some(AnnBuf::new(8)), bufs, &hw(), 1);
    let mut trees: Vec<ProofTree> = Vec::new();
    let stolen = class.steal_buf(&mut trees).unwrap().unwrap();
    assert_eq!(stolen.next_ann_index(), 5);
    assert_eq!(stolen.read_ready_anns(), batch(&[4, 5, 6, 7, 8]));
    assert_eq!(class.ready_anns(), 3);
}

#[test]
fn steal_takes_active_buffer_when_no_frozen() {
    let mut class = AnnClass::new(Some(filled_buf(8, &[1, 2], false)), Vec::new(), &hw(), 1);
    let mut trees: Vec<ProofTree> = Vec::new();
    let stolen = class.steal_buf(&mut trees).unwrap().unwrap();
    assert_eq!(stolen.next_ann_index(), 2);
    assert!(class.is_dead());
    // a dead class has nothing left to steal, which is not an error
    assert!(matches!(class.steal_buf(&mut trees), Ok(None)));
}

#[test]
fn steal_resets_matching_trees_and_spares_the_rest() {
    let mut trees = vec![
        ProofTree { root_hash: Some(Digest(11)) },
        ProofTree { root_hash: Some(Digest(22)) },
        ProofTree { root_hash: Some(Digest(33)) },
    ];
    let bufs = vec![filled_buf(8, &[1, 2, 3], true)];
    let mut class = AnnClass::new(Some(AnnBuf::new(8)), bufs, &hw(), 1);
    // captured root still matches: the structure must be reset
    class.add_dependent_tree(HashTree { origin: 0, root_hash: Some(Digest(11)) });
    // captured root is stale: the structure has moved on and is kept
    class.add_dependent_tree(HashTree { origin: 1, root_hash: Some(Digest(99)) });
    // never captured a root: inert
    class.add_dependent_tree(HashTree { origin: 2, root_hash: None });
    let stolen = class.steal_buf(&mut trees).unwrap().unwrap();
    assert_eq!(stolen.next_ann_index(), 3);
    assert_eq!(trees[0].current_root(), None);
    assert_eq!(trees[1].current_root(), Some(Digest(22)));
    assert_eq!(trees[2].current_root(), Some(Digest(33)));
}

#[test]
fn steal_of_active_buffer_keeps_trees() {
    let mut trees = vec![ProofTree { root_hash: Some(Digest(11)) }];
    let mut class = AnnClass::new(Some(filled_buf(8, &[1], false)), Vec::new(), &hw(), 1);
    class.add_dependent_tree(HashTree { origin: 0, root_hash: Some(Digest(11)) });
    let stolen = class.steal_buf(&mut trees).unwrap().unwrap();
    assert_eq!(stolen.next_ann_index(), 1);
    assert_eq!(trees[0].current_root(), Some(Digest(11)));
}

#[test]
fn ready_counts_only_frozen_buffers() {
    let bufs = vec![filled_buf(8, &[1, 2, 3], true)];
    let class = AnnClass::new(Some(filled_buf(8, &[4, 5], false)), bufs, &hw(), 1);
    assert_eq!(class.ready_anns(), 3);
    assert_eq!(class.ready_anns_bufs(), (3, 1));
}

#[test]
fn dead_only_without_frozen_and_active() {
    let with_top = AnnClass::new(Some(AnnBuf::new(4)), Vec::new(), &hw(), 1);
    assert!(!with_top.is_dead());
    let with_frozen = AnnClass::new(None, vec![filled_buf(4, &[1], true)], &hw(), 2);
    assert!(!with_frozen.is_dead());
    let empty = AnnClass::new(None, Vec::new(), &hw(), 3);
    assert!(empty.is_dead());
}

#[test]
fn with_bufs_makes_last_buffer_active() {
    let bufs = vec![filled_buf(8, &[1, 2], true), filled_buf(8, &[3], false)];
    let class = AnnClass::with_bufs(bufs, &hw(), 7);
    // the part-filled last buffer is active, so only the first is counted
    assert_eq!(class.ready_anns(), 2);
    assert_eq!(class.id, 7);
}

#[test]
fn effective_work_beyond_window_is_base_work() {
    let class = AnnClass::new(Some(AnnBuf::new(4)), Vec::new(), &hw(), 1);
    assert_eq!(class.ann_effective_work(104), 0x1f00ffff);
    assert_eq!(class.ann_effective_work(1000), 0x1f00ffff);
}

#[test]
fn effective_work_within_window_degrades() {
    let class = AnnClass::new(Some(AnnBuf::new(4)), Vec::new(), &hw(), 1);
    // younger than the three-block wait period: counted as worthless
    assert_eq!(class.ann_effective_work(100), 0xffffffff);
    assert_eq!(class.ann_effective_work(101), 0xffffffff);
    assert_eq!(class.ann_effective_work(102), 0xffffffff);
    // exactly at the wait period: the base work, undegraded
    assert_eq!(class.ann_effective_work(103), 0x1f00ffff);
}

#[test]
fn read_ready_anns_fills_prefix_and_keeps_rest() {
    let bufs = vec![filled_buf(8, &[1, 2, 3], true), filled_buf(8, &[4, 5], true)];
    let class = AnnClass::new(Some(filled_buf(8, &[9], false)), bufs, &hw(), 1);
    let sentinel = ann(777);
    let mut out = vec![sentinel; 7];
    class.read_ready_anns(&mut out);
    assert_eq!(&out[..5], &batch(&[1, 2, 3, 4, 5])[..]);
    // the region past the ready count is untouched
    assert_eq!(out[5], sentinel);
    assert_eq!(out[6], sentinel);
}

#[test]
fn pushed_records_come_back_out() {
    let mut class = AnnClass::new(Some(AnnBuf::new(3)), Vec::new(), &hw(), 1);
    let (consumed, _) = class.push_anns(&batch(&[10, 20, 30, 40]), AnnBuf::new(3));
    assert_eq!(consumed, 4);
    let mut out = vec![ann(0); 3];
    class.read_ready_anns(&mut out);
    assert_eq!(out, batch(&[10, 20, 30]));
    let mut trees: Vec<ProofTree> = Vec::new();
    let frozen = class.steal_buf(&mut trees).unwrap().unwrap();
    assert_eq!(frozen.read_ready_anns(), batch(&[10, 20, 30]));
    let active = class.steal_buf(&mut trees).unwrap().unwrap();
    assert_eq!(active.read_ready_anns(), batch(&[40]));
    assert!(class.is_dead());
}

#[test]
fn invalidation_is_idempotent() {
    let mut trees = vec![ProofTree { root_hash: Some(Digest(5)) }];
    let mut link = HashTree { origin: 0, root_hash: Some(Digest(5)) };
    link.invalidate(&mut trees);
    assert_eq!(trees[0].current_root(), None);
    // the structure is rebuilt by someone else...
    trees[0] = ProofTree { root_hash: Some(Digest(6)) };
    // ...and the spent link no longer touches it
    link.invalidate(&mut trees);
    assert_eq!(trees[0].current_root(), Some(Digest(6)));
}
