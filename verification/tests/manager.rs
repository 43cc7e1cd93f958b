use foyer_block::device::{Device, NoopDevice, NoopPartition};
use foyer_block::eviction::FifoPicker;
use foyer_block::indexer::BlockId;
use foyer_block::manager::{Block, BlockCounts, BlockManager, BlockState};
use std::cell::Cell;
use std::rc::Rc;
use std::sync::Arc;

const BLOCK_SIZE: usize = 4096;

/// A waiter for a clean block: where the block is put, unless nobody waits any more.
type Waiter = Option<Rc<Cell<Option<BlockId>>>>;

type Manager = BlockManager<NoopPartition<()>, FifoPicker<NoopPartition<()>>, Waiter, u32>;

fn block_manager_for_test(
    nblocks: usize,
    reclaim_concurrency: usize,
    clean_block_threshold: usize,
) -> Manager {
    let mut device = NoopDevice::new(BLOCK_SIZE * nblocks, Arc::new(()));
    BlockManager::open(
        &mut device,
        BLOCK_SIZE,
        vec![FifoPicker::new()],
        reclaim_concurrency,
        clean_block_threshold,
    )
    .unwrap()
}

fn send(waiter: Waiter, block: BlockId) -> bool {
    match waiter {
        Some(slot) => {
            slot.set(Some(block));
            true
        }
        None => false,
    }
}

fn counts(clean: usize, writing: usize, evictable: usize, reclaiming: usize) -> BlockCounts {
    BlockCounts { clean, evictable, writing, reclaiming }
}

fn tracked_block_count(bm: &Manager) -> usize {
    let c = bm.counts();
    c.clean + c.evictable + c.writing + c.reclaiming
}

/// Evict the evictable block, the only one, to clean it.
fn evict_to_reclaiming(bm: &mut Manager) -> BlockId {
    bm.evict().expect("evictable must be non-empty")
}

#[test]
fn test_on_reclaim_finish_dead_waiter_returns_block_to_clean_pool() {
    let mut bm = block_manager_for_test(1, 0, 1);
    bm.init(&vec![]);
    assert_eq!(bm.blocks(), 1);

    let block = evict_to_reclaiming(&mut bm);
    // A waiter that was cancelled.
    assert!(bm.get_clean_block(None).is_none());

    let reclaimed = bm.on_reclaim_finish(block, send);
    assert_eq!(reclaimed.reclaim, None);

    let c = bm.counts();
    assert_eq!(c.clean, 1, "reclaimed block must return to the clean pool, not be leaked");
    assert_eq!(c.writing, 0);
    assert_eq!(c.evictable, 0);
    assert_eq!(c.reclaiming, 0);
    assert_eq!(tracked_block_count(&bm), 1, "block leaked out of all state sets");
}

#[test]
fn test_on_reclaim_finish_live_waiter_tracks_writing_block() {
    let mut bm = block_manager_for_test(1, 0, 1);
    bm.init(&vec![]);

    let block = evict_to_reclaiming(&mut bm);

    // Register a *live* waiter.
    let slot = Rc::new(Cell::new(None));
    assert!(bm.get_clean_block(Some(slot.clone())).is_none());

    bm.on_reclaim_finish(block, send);

    // A block handed to a live waiter must be tracked as being written.
    assert_eq!(
        bm.state(0),
        Some(BlockState::Writing),
        "block handed to a live waiter must be tracked in writing_blocks",
    );
    assert_eq!(bm.counts(), counts(0, 1, 0, 0));

    // The waiter must receive exactly the reclaimed block.
    assert_eq!(slot.get(), Some(0));

    // With the block properly tracked, the writing -> evictable transition must succeed.
    bm.on_writing_finish(0);
    let c = bm.counts();
    assert_eq!(c.evictable, 1, "block must transition writing -> evictable");
    assert_eq!(c.writing, 0);
    assert_eq!(c.clean, 0);
    assert_eq!(c.reclaiming, 0);
}

#[test]
fn finished_block_leaves_those_being_cleaned() {
    for live in [false, true] {
        let mut bm = block_manager_for_test(1, 1, 1);
        bm.init(&vec![]);
        let block = bm.reclaim_if_needed().unwrap();
        assert_eq!(bm.counts(), counts(0, 0, 0, 1));

        let slot = Rc::new(Cell::new(None));
        assert!(bm.get_clean_block(live.then_some(slot.clone())).is_none());
        let reclaimed = bm.on_reclaim_finish(block, send);
        assert_eq!(reclaimed.reclaim, None);
        if live {
            assert_eq!(slot.get(), Some(block));
            assert_eq!(bm.counts(), counts(0, 1, 0, 0));
        } else {
            assert_eq!(bm.counts(), counts(1, 0, 0, 0));
        }
    }
}

#[test]
fn test_cancelled_runtime_get_clean_block_waiter_is_recovered_by_reclaim() {
    let mut bm = block_manager_for_test(2, 1, 1);
    // clean = {0}, evictable = {1}.
    bm.init(&vec![0]);

    // Taking block 0 starts the cleaning of block 1.
    let grant = bm.get_clean_block(None).unwrap();
    assert_eq!(grant.block, 0);
    assert_eq!(grant.reclaim, Some(1));

    // There is no clean block for the next one, which is cancelled later.
    assert!(bm.get_clean_block(None).is_none());
    assert_eq!(
        bm.clean_block_waiters(),
        1,
        "the parked get_clean_block must have registered a waiter",
    );

    bm.on_reclaim_finish(1, send);

    assert_eq!(tracked_block_count(&bm), bm.blocks(), "reclaimed block leaked out of all state sets");
    assert_eq!(
        bm.state(1),
        Some(BlockState::Clean),
        "reclaimed block 1 must return to the clean pool, not be leaked",
    );
    assert_eq!(bm.clean_block_waiters(), 0);
}

#[test]
fn latest_waiter_is_served_first() {
    let mut bm = block_manager_for_test(2, 2, 2);
    bm.init(&vec![]);
    assert_eq!(bm.reclaim_if_needed(), Some(0));
    assert_eq!(bm.reclaim_if_needed(), Some(1));
    let first = Rc::new(Cell::new(None));
    let second = Rc::new(Cell::new(None));
    assert!(bm.get_clean_block(Some(first.clone())).is_none());
    assert!(bm.get_clean_block(Some(second.clone())).is_none());
    bm.on_reclaim_finish(1, send);
    assert_eq!((first.get(), second.get()), (None, Some(1)));
    bm.on_reclaim_finish(0, send);
    assert_eq!((first.get(), second.get()), (Some(0), Some(1)));
}

#[test]
fn clean_blocks_are_handed_out_in_order() {
    let mut bm = block_manager_for_test(4, 1, 1);
    bm.init_in_order(&vec![3, 1], &vec![2, 0]);
    let grant = bm.get_clean_block(None).unwrap();
    assert_eq!((grant.block, grant.reclaim), (3, None));
    // The last clean block is gone, so the block that has been evictable longest is cleaned.
    let grant = bm.get_clean_block(None).unwrap();
    assert_eq!((grant.block, grant.reclaim), (1, Some(2)));
    assert_eq!(bm.counts(), counts(0, 2, 1, 1));
    assert_eq!(bm.state(0), Some(BlockState::Evictable));
    assert_eq!(bm.state(2), Some(BlockState::Reclaiming));
    assert_eq!(bm.state(7), None);
}

#[test]
fn no_more_blocks_are_cleaned_than_allowed() {
    let mut bm = block_manager_for_test(3, 1, 3);
    bm.init(&vec![]);
    assert_eq!(bm.reclaim_if_needed(), Some(0));
    assert_eq!(bm.reclaim_if_needed(), None);
    // The next one is cleaned at the end.
    assert_eq!(bm.on_reclaim_finish(0, send).reclaim, Some(1));
    assert_eq!(bm.on_reclaim_finish(1, send).reclaim, Some(2));
    assert_eq!(bm.on_reclaim_finish(2, send).reclaim, None);
    assert_eq!(bm.counts(), counts(3, 0, 0, 0));
}

#[test]
fn waiters_are_woken_at_the_end_of_cleaning() {
    let mut bm = block_manager_for_test(2, 2, 2);
    bm.init(&vec![]);
    assert!(bm.wait_reclaim(6));
    assert_eq!(bm.reclaim_if_needed(), Some(0));
    assert_eq!(bm.reclaim_if_needed(), Some(1));
    assert!(!bm.wait_reclaim(7));
    assert!(!bm.wait_reclaim(8));
    assert!(bm.on_reclaim_finish(0, send).woken.is_empty());
    assert_eq!(bm.on_reclaim_finish(1, send).woken, vec![7, 8]);
    assert!(bm.wait_reclaim(9));
}

#[test]
fn without_a_picker_any_evictable_block_is_evicted() {
    let mut device = NoopDevice::new(BLOCK_SIZE * 3, Arc::new(()));
    let pickers: Vec<FifoPicker<NoopPartition<()>>> = vec![];
    let mut bm: Manager = BlockManager::open(&mut device, BLOCK_SIZE, pickers, 1, 1).unwrap();
    assert_eq!(bm.evict(), None);
    bm.init(&vec![1]);
    let mut evicted = vec![bm.evict().unwrap(), bm.evict().unwrap()];
    evicted.sort();
    assert_eq!(evicted, vec![0, 2]);
    assert_eq!(bm.evict(), None);
}

#[test]
fn blocks_are_made_of_what_is_free() {
    let mut device = NoopDevice::new(BLOCK_SIZE * 3 + 5, Arc::new(()));
    device.create_partition(BLOCK_SIZE).unwrap();
    let bm: Manager =
        BlockManager::open(&mut device, BLOCK_SIZE, vec![FifoPicker::new()], 1, 1).unwrap();
    assert_eq!(bm.blocks(), 2);
    assert_eq!(bm.block(1).id(), 1);
    assert_eq!(bm.block(1).size(), BLOCK_SIZE);
    assert_eq!(device.partitions(), 3);
    assert_eq!(device.free(), 5);
    assert_eq!(bm.retired_count(), 0);
    assert_eq!(bm.counts(), counts(0, 0, 0, 0));
}

#[test]
fn retired_tail_comes_back_clean() {
    let mut bm = block_manager_for_test(4, 1, 0);
    bm.init_in_order(&vec![0, 2], &vec![3, 1]);
    // Block 2 is clean and retires at once, block 3 is cleaned first.
    let (reclaim, done) = bm.retire_tail(2, 5);
    assert_eq!((reclaim, done), (vec![3], false));
    assert_eq!(bm.retired_count(), 2);
    assert!(!bm.is_settled());
    assert_eq!(bm.state(2), None);
    assert_eq!(bm.state(3), Some(BlockState::Reclaiming));
    assert_eq!(bm.on_reclaim_finish(3, send).woken, vec![5]);
    assert!(bm.is_settled());
    assert_eq!(bm.state(3), None);
    assert_eq!(bm.counts(), counts(1, 0, 1, 0));

    bm.restore_retired(2);
    assert_eq!(bm.retired_count(), 0);
    assert_eq!(bm.counts(), counts(3, 0, 1, 0));
    assert_eq!(bm.state(2), Some(BlockState::Clean));
    assert_eq!(bm.state(3), Some(BlockState::Clean));
}

#[test]
fn block_that_is_written_retires_at_the_end() {
    let mut bm = block_manager_for_test(2, 1, 0);
    bm.init_in_order(&vec![1, 0], &vec![]);
    assert_eq!(bm.get_clean_block(None).unwrap().block, 1);
    let (reclaim, done) = bm.retire_tail(1, 5);
    assert_eq!((reclaim, done), (vec![], false));
    assert_eq!(bm.state(1), Some(BlockState::Writing));
    // What was written goes, so the block is cleaned instead of becoming evictable.
    assert_eq!(bm.on_writing_finish(1), Some(1));
    assert_eq!(bm.state(1), Some(BlockState::Reclaiming));
    assert_eq!(bm.on_reclaim_finish(1, send).woken, vec![5]);
    assert_eq!(bm.state(1), None);
    assert_eq!(bm.counts(), counts(1, 0, 0, 0));
}

#[test]
fn statistics_are_kept_per_block() {
    let mut bm = block_manager_for_test(2, 1, 0);
    bm.statistics_mut(1).invalid = 7;
    bm.statistics_mut(1).probation = true;
    assert_eq!(bm.block(0).statistics().invalid, 0);
    assert_eq!(bm.block(1).statistics().invalid, 7);
    assert!(bm.block(1).statistics().probation);
    bm.reset_statistics(1);
    assert_eq!(bm.block(1).statistics().invalid, 0);
    assert!(!bm.block(1).statistics().probation);
}

#[test]
fn single_block_knows_its_partition() {
    let mut device = NoopDevice::new(BLOCK_SIZE, Arc::new(()));
    let partition = device.create_partition(BLOCK_SIZE).unwrap();
    let block = Block::new_for_test(9, partition);
    assert_eq!(block.id(), 9);
    assert_eq!(block.size(), BLOCK_SIZE);
    assert_eq!(block.statistics().access, 0);
}

#[test]
fn smaller_device_opens_with_fewer_blocks() {
    let mut bm = block_manager_for_test(4, 1, 0);
    bm.limit_active(3);
    assert_eq!(bm.retired_count(), 1);
    bm.limit_active(9);
    assert_eq!(bm.retired_count(), 1);
    bm.init(&vec![0]);
    assert_eq!(bm.counts(), counts(1, 0, 2, 0));
    assert_eq!(bm.state(3), None);
}

#[test]
fn retirement_keeps_to_the_number_of_reclaimers() {
    let mut bm = block_manager_for_test(4, 1, 0);
    bm.init_in_order(&vec![], &vec![0, 3, 2, 1]);
    // Three blocks are to be cleaned, one at a time.
    assert_eq!(bm.retire_tail(3, 5), (vec![1], false));
    assert_eq!(bm.counts(), counts(0, 0, 3, 1));
    let r = bm.on_reclaim_finish(1, send);
    assert_eq!((r.reclaim, r.woken), (Some(2), vec![]));
    let r = bm.on_reclaim_finish(2, send);
    assert_eq!((r.reclaim, r.woken), (Some(3), vec![]));
    let r = bm.on_reclaim_finish(3, send);
    assert_eq!((r.reclaim, r.woken), (None, vec![5]));
    assert_eq!(bm.counts(), counts(0, 0, 1, 0));
    assert_eq!(bm.state(0), Some(BlockState::Evictable));
}

#[test]
fn retirement_of_the_clean_blocks_starts_a_cleaning() {
    let mut bm = block_manager_for_test(4, 1, 1);
    bm.init_in_order(&vec![2, 3], &vec![1, 0]);
    // The clean blocks are gone, so that a writer needs one of the others.
    assert_eq!(bm.retire_tail(2, 5), (vec![1], true));
    let slot = Rc::new(Cell::new(None));
    assert!(bm.get_clean_block(Some(slot.clone())).is_none());
    bm.on_reclaim_finish(1, send);
    assert_eq!(slot.get(), Some(1));
}

#[test]
fn restoration_keeps_data_and_wakes_who_waits() {
    let mut bm = block_manager_for_test(3, 1, 0);
    bm.init_in_order(&vec![], &vec![0, 1, 2]);
    assert_eq!(bm.retire_tail(2, 5), (vec![1], false));
    // Block 2 was not cleaned yet, and block 1 is being cleaned.
    assert_eq!(bm.restore_retired(1), vec![]);
    assert_eq!(bm.restore_retired(1), vec![5]);
    assert_eq!(bm.counts(), counts(0, 0, 2, 1));
    assert_eq!(bm.state(2), Some(BlockState::Evictable));
    assert!(bm.on_reclaim_finish(1, send).woken.is_empty());
    assert_eq!(bm.state(1), Some(BlockState::Clean));
}

#[test]
fn restored_blocks_serve_waiters() {
    let mut bm = block_manager_for_test(2, 1, 1);
    bm.init(&vec![0, 1]);
    assert_eq!(bm.retire_tail(1, 5), (vec![], true));
    assert_eq!(bm.get_clean_block(None).unwrap().block, 0);
    let slot = Rc::new(Cell::new(None));
    assert!(bm.get_clean_block(Some(slot.clone())).is_none());
    assert!(bm.get_clean_block(None).is_none());
    assert_eq!(bm.serve_waiter(send), (false, None));
    assert_eq!(bm.restore_retired(1), vec![]);
    // The latest waiter was cancelled, the other one is served.
    assert_eq!(bm.serve_waiter(send), (true, None));
    assert_eq!((slot.get(), bm.clean_block_waiters()), (None, 1));
    assert_eq!(bm.serve_waiter(send), (true, None));
    assert_eq!((slot.get(), bm.clean_block_waiters()), (Some(1), 0));
    assert_eq!(bm.serve_waiter(send), (false, None));
    assert_eq!(bm.counts(), counts(0, 2, 0, 0));
}
