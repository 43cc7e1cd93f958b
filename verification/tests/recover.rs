use foyer_block::device::{NoopDevice, NoopPartition};
use foyer_block::error::{Error, ErrorKind};
use foyer_block::eviction::FifoPicker;
use foyer_block::indexer::{BlockId, EntryAddress, Indexer};
use foyer_block::manager::{BlockCounts, BlockManager, BlockState};
use foyer_block::recover::{
    order_evictable_blocks_by_sequence, BlockRecoverRunner, EntryInfo, RecoverMode, RecoverRunner,
    Tombstone,
};
use foyer_block::serde::Sequence;
use std::sync::Arc;

#[test]
fn test_order_evictable_blocks_by_sequence_uses_sequence_not_block_id() {
    // (block_id, latest entry sequence). Block id 0 holds the NEWEST write (its id was
    // recycled after a reclamation cycle), so it must be ordered last despite being the
    // lowest id. Ordering by block id would wrongly evict it first.
    let input: Vec<(BlockId, Sequence)> = vec![(0, 80), (2, 20), (3, 30), (5, 50), (7, 70)];
    let ordered = order_evictable_blocks_by_sequence(input);
    assert_eq!(ordered, vec![2, 3, 5, 7, 0]);
}

#[test]
fn test_order_evictable_blocks_by_sequence_empty() {
    assert!(order_evictable_blocks_by_sequence(vec![]).is_empty());
}

#[test]
fn test_order_evictable_blocks_by_sequence_ties_preserve_block_id_order() {
    // Recovery feeds blocks in ascending block-id order; the sort is stable, so
    // blocks sharing a sequence (e.g. written in the same flush batch) keep that order.
    let input: Vec<(BlockId, Sequence)> = vec![(1, 10), (2, 10), (5, 10), (9, 10)];
    let ordered = order_evictable_blocks_by_sequence(input);
    assert_eq!(ordered, vec![1, 2, 5, 9]);
}

fn info(hash: u64, block: BlockId, sequence: Sequence) -> EntryInfo {
    EntryInfo { hash, addr: EntryAddress { block, offset: 0, len: 1, sequence } }
}

fn sequences(infos: &[EntryInfo]) -> Vec<Sequence> {
    infos.iter().map(|i| i.addr.sequence).collect()
}

#[test]
fn block_recovery_stops_at_older_entries() {
    let mut runner = BlockRecoverRunner::new(RecoverMode::Quiet);
    assert!(runner.step(Ok(Some(vec![info(1, 0, 3), info(2, 0, 3), info(3, 0, 5)]))).is_ok());
    assert!(!runner.is_done());
    assert!(runner.step(Ok(Some(vec![info(4, 0, 6), info(5, 0, 4), info(6, 0, 9)]))).is_ok());
    assert!(runner.is_done());
    assert_eq!(sequences(&runner.finish()), vec![3, 3, 5, 6]);
}

#[test]
fn block_recovery_ends_with_the_block() {
    let mut runner = BlockRecoverRunner::new(RecoverMode::Strict);
    assert!(runner.step(Ok(Some(vec![info(1, 0, 0)]))).is_ok());
    assert!(runner.step(Ok(None)).is_ok());
    assert!(runner.is_done());
    assert_eq!(sequences(&runner.finish()), vec![0]);
}

#[test]
fn block_recovery_treats_errors_by_mode() {
    let mut runner = BlockRecoverRunner::new(RecoverMode::Quiet);
    assert!(runner.step(Ok(Some(vec![info(1, 0, 7)]))).is_ok());
    assert!(runner.step(Err(Error::Io { code: 5 })).is_ok());
    assert!(runner.is_done());
    assert_eq!(sequences(&runner.finish()), vec![7]);

    let mut runner = BlockRecoverRunner::new(RecoverMode::Strict);
    let e = runner.step(Err(Error::Io { code: 5 })).unwrap_err();
    assert_eq!(e.kind(), ErrorKind::Io);
}

#[test]
fn block_recovery_can_be_turned_off() {
    let runner = BlockRecoverRunner::new(RecoverMode::Never);
    assert!(runner.is_done());
    assert!(runner.finish().is_empty());
}

type Manager = BlockManager<NoopPartition<()>, FifoPicker<NoopPartition<()>>, (), ()>;

fn manager_for_test(nblocks: usize) -> Manager {
    let mut device = NoopDevice::new(4096 * nblocks, Arc::new(()));
    BlockManager::open(&mut device, 4096, vec![FifoPicker::new()], 4, 0).unwrap()
}

#[test]
fn newest_version_of_every_entry_is_recovered() {
    let mut indexer = Indexer::new(4);
    let mut bm = manager_for_test(4);
    let scans = vec![
        Ok(vec![info(1, 0, 8), info(2, 0, 9)]),
        Ok(vec![]),
        Ok(vec![info(1, 2, 3), info(3, 2, 4)]),
        Ok(vec![info(3, 3, 4), info(4, 3, 6)]),
    ];
    let tombstones = vec![
        Tombstone { hash: 2, sequence: 12 },
        Tombstone { hash: 4, sequence: 5 },
        Tombstone { hash: 5, sequence: 1 },
    ];
    let next = RecoverRunner::run(scans, &tombstones, &mut indexer, &mut bm).unwrap();
    assert_eq!(next, 13);
    // The later write of the entry counts, whichever block comes first.
    assert_eq!(indexer.get(1).unwrap().block, 0);
    // Deleted after it was written.
    assert_eq!(indexer.get(2), None);
    // Two of the same sequence: the later one in scanning order.
    assert_eq!(indexer.get(3).unwrap().block, 3);
    // Written again after it was deleted.
    assert_eq!(indexer.get(4).unwrap().sequence, 6);
    assert_eq!(indexer.get(5), None);

    assert_eq!(bm.counts(), BlockCounts { clean: 1, evictable: 3, writing: 0, reclaiming: 0 });
    assert_eq!(bm.state(1), Some(BlockState::Clean));
    // Oldest-written first: block 2 up to 4, block 3 up to 6, block 0 up to 9.
    assert_eq!(bm.evict(), Some(2));
    assert_eq!(bm.evict(), Some(3));
    assert_eq!(bm.evict(), Some(0));
    assert_eq!(bm.evict(), None);
}

#[test]
fn nothing_is_recovered_after_an_error() {
    let mut indexer = Indexer::new(4);
    let mut bm = manager_for_test(3);
    let scans = vec![
        Err(Error::Io { code: 1 }),
        Ok(vec![info(1, 1, 3)]),
        Err(Error::ChecksumMismatch { expected: 1, get: 2 }),
    ];
    let e = RecoverRunner::run(scans, &vec![], &mut indexer, &mut bm).unwrap_err();
    assert_eq!(e.kind(), ErrorKind::Recover);
    match e {
        Error::Recover { reasons } => {
            let kinds: Vec<ErrorKind> = reasons.iter().map(|r| r.kind()).collect();
            assert_eq!(kinds, vec![ErrorKind::Io, ErrorKind::ChecksumMismatch]);
        }
        _ => panic!("unexpected error"),
    }
    assert_eq!(indexer.get(1), None);
    assert_eq!(bm.counts(), BlockCounts { clean: 0, evictable: 0, writing: 0, reclaiming: 0 });
}

#[test]
fn empty_disk_starts_at_the_first_sequence() {
    let mut indexer = Indexer::new(4);
    let mut bm = manager_for_test(2);
    let next = RecoverRunner::run(vec![Ok(vec![]), Ok(vec![])], &vec![], &mut indexer, &mut bm);
    assert_eq!(next.unwrap(), 1);
    assert_eq!(bm.counts(), BlockCounts { clean: 2, evictable: 0, writing: 0, reclaiming: 0 });
}

#[test]
fn block_recovery_of_all_scans() {
    let scans = || {
        vec![
            Ok(Some(vec![info(1, 0, 3), info(2, 0, 5)])),
            Ok(Some(vec![info(3, 0, 6)])),
            Err(Error::Io { code: 5 }),
            Ok(Some(vec![info(4, 0, 7)])),
        ]
    };
    let r = BlockRecoverRunner::run(RecoverMode::Quiet, scans()).unwrap();
    assert_eq!(sequences(&r), vec![3, 5, 6]);
    let e = BlockRecoverRunner::run(RecoverMode::Strict, scans()).unwrap_err();
    assert_eq!(e.kind(), ErrorKind::Io);
    assert!(BlockRecoverRunner::run(RecoverMode::Never, scans()).unwrap().is_empty());
    // An older entry ends the recovery before the error is met.
    let scans = vec![Ok(Some(vec![info(1, 0, 3), info(2, 0, 1)])), Err(Error::Io { code: 5 })];
    let r = BlockRecoverRunner::run(RecoverMode::Strict, scans).unwrap();
    assert_eq!(sequences(&r), vec![3]);
}
