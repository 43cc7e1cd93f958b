use foyer_block::combined::CombinedDeviceBuilder;
use foyer_block::device::{Device, NoopDevice, NoopPartition, Partition};
use foyer_block::engine::{
    Age, BlockEngine, BlockEngineConfig, Deletion, Enqueued, InvalidStats, Load, LoadStep, Resize,
};
use foyer_block::error::{Error, ErrorKind};
use foyer_block::eviction::FifoPicker;
use foyer_block::indexer::{EntryAddress, HashedEntryAddress};
use foyer_block::manager::{BlockCounts, BlockState};
use foyer_block::recover::{EntryInfo, Tombstone};
use foyer_block::serde::{Compression, EntryHeader};
use std::sync::Arc;

const KB: usize = 1024;

type Dev = NoopDevice<()>;

type Picker = FifoPicker<NoopPartition<()>>;

type Engine = BlockEngine<Dev, &'static str, Picker, (), u32>;

fn config_for_test(capacity: usize) -> BlockEngineConfig<Dev, &'static str, Picker> {
    let device = NoopDevice::new(capacity, Arc::new(()));
    BlockEngineConfig::new(device, vec![FifoPicker::new()], "admit all", "reject all")
        .with_block_size(16 * KB)
        .with_indexer_shards(4)
        .with_recover_concurrency(2)
}

/// Four blocks of 16 KiB, all of them clean.
fn engine_for_test() -> Engine {
    let opened = config_for_test(64 * KB).build().unwrap().open(None).unwrap();
    assert_eq!(opened.blocks_to_scan(), vec![0, 1, 2, 3]);
    let scans = vec![Ok(vec![]), Ok(vec![]), Ok(vec![]), Ok(vec![])];
    opened.recover(scans, &vec![]).unwrap()
}

fn address(block: u32, len: u32, sequence: u64) -> EntryAddress {
    EntryAddress { block, offset: 8192, len, sequence }
}

#[test]
fn config_has_defaults() {
    let device: Dev = NoopDevice::new(0, Arc::new(()));
    let pickers: Vec<Picker> = vec![];
    let config = BlockEngineConfig::new(device, pickers, 1, 2);
    assert_eq!(config.block_size, 16 * 1024 * 1024);
    assert_eq!(config.compression, Compression::Uncompressed);
    assert_eq!(config.indexer_shards, 64);
    assert_eq!(config.recover_concurrency, 8);
    assert_eq!(config.flushers, 1);
    assert_eq!(config.reclaimers, 1);
    assert_eq!(config.buffer_pool_size, 16 * 1024 * 1024);
    assert_eq!(config.blob_index_size, 4 * 1024);
    assert_eq!(config.submit_queue_size_threshold, None);
    assert_eq!(config.clean_block_threshold, None);
    assert_eq!(config.clean_threshold(), 1);
    assert_eq!(config.eviction_pickers.len(), 0);
    assert_eq!((config.admission_filter, config.reinsertion_filter), (1, 2));
    assert!(!config.enable_tombstone_log);
}

#[test]
fn config_can_be_changed() {
    let device: Dev = NoopDevice::new(0, Arc::new(()));
    let pickers: Vec<Picker> = vec![];
    let config = BlockEngineConfig::new(device, pickers, 1, 2)
        .with_block_size(4097)
        .with_indexer_shards(3)
        .with_recover_concurrency(4)
        .with_flushers(5)
        .with_admission_filter(6)
        .with_reclaimers(7)
        .with_buffer_pool_size(8)
        .with_blob_index_size(1)
        .with_submit_queue_size_threshold(9)
        .with_clean_block_threshold(10)
        .with_eviction_pickers(vec![FifoPicker::new(), FifoPicker::new()])
        .with_reinsertion_filter(11)
        .with_tombstone_log(true);
    assert_eq!(config.block_size, 8192);
    assert_eq!(config.indexer_shards, 3);
    assert_eq!(config.recover_concurrency, 4);
    assert_eq!(config.flushers, 5);
    assert_eq!(config.reclaimers, 7);
    assert_eq!(config.buffer_pool_size, 8);
    assert_eq!(config.blob_index_size, 4096);
    assert_eq!(config.submit_queue_size_threshold, Some(9));
    assert_eq!(config.clean_block_threshold, Some(10));
    assert_eq!(config.clean_threshold(), 10);
    assert_eq!(config.eviction_pickers.len(), 2);
    assert_eq!((config.admission_filter, config.reinsertion_filter), (6, 11));
    assert!(config.enable_tombstone_log);
}

#[test]
fn submit_queue_threshold_follows_the_buffer_pool() {
    let reserved = config_for_test(64 * KB).with_buffer_pool_size(1000).build().unwrap();
    assert_eq!(reserved.submit_queue_size_threshold, 2000);
    let reserved = config_for_test(64 * KB)
        .with_submit_queue_size_threshold(7)
        .with_buffer_pool_size(1000)
        .build()
        .unwrap();
    assert_eq!(reserved.submit_queue_size_threshold, 7);
}

#[test]
fn tombstone_log_is_set_aside() {
    // 256 pages need one page of slots, 257 pages need two.
    let reserved = config_for_test(1024 * KB).with_tombstone_log(true).build().unwrap();
    assert_eq!(reserved.tombstone_log.as_ref().unwrap().size(), 4096);
    let opened = reserved.open::<(), u32>(None).unwrap();
    assert_eq!(opened.block_manager.blocks(), 63);
    let reserved = config_for_test(1028 * KB).with_tombstone_log(true).build().unwrap();
    assert_eq!(reserved.tombstone_log.as_ref().unwrap().size(), 8192);
    let reserved = config_for_test(1024 * KB).build().unwrap();
    assert!(reserved.tombstone_log.is_none());
    assert_eq!(reserved.open::<(), u32>(None).unwrap().block_manager.blocks(), 64);
}

#[test]
fn tombstone_log_that_does_not_fit_is_refused() {
    let mut config = config_for_test(64 * KB).with_tombstone_log(true);
    config.device.create_partition(64 * KB).unwrap();
    match config.build() {
        Ok(_) => panic!("there is no space"),
        Err(e) => assert_eq!(e.kind(), ErrorKind::NoSpace),
    }
}

#[test]
fn few_blocks_are_noticed() {
    let opened = config_for_test(64 * KB).build().unwrap().open::<(), u32>(None).unwrap();
    assert!(!opened.is_short_of_blocks());
    let opened =
        config_for_test(64 * KB).with_flushers(2).build().unwrap().open::<(), u32>(None).unwrap();
    assert!(opened.is_short_of_blocks());
    assert_eq!(opened.io_buffer_size(), 8 * 1024 * 1024);
}

#[test]
fn smaller_device_has_fewer_blocks_to_scan() {
    let opened =
        config_for_test(64 * KB).build().unwrap().open::<(), u32>(Some(40 * KB as u64)).unwrap();
    assert_eq!(opened.blocks_to_scan(), vec![0, 1]);
    assert_eq!(opened.block_manager.blocks(), 4);
    assert_eq!(opened.block_manager.retired_count(), 2);
    let opened =
        config_for_test(64 * KB).build().unwrap().open::<(), u32>(Some(640 * KB as u64)).unwrap();
    assert_eq!(opened.blocks_to_scan(), vec![0, 1, 2, 3]);
}

#[test]
fn recovery_error_stops_the_engine() {
    let opened = config_for_test(64 * KB).build().unwrap().open::<(), u32>(None).unwrap();
    match opened.recover(vec![Err(Error::Io { code: 3 })], &vec![]) {
        Ok(_) => panic!("a block could not be scanned"),
        Err(e) => assert_eq!(e.kind(), ErrorKind::Recover),
    }
}

#[test]
fn recovered_entries_are_there() {
    let opened = config_for_test(64 * KB).build().unwrap().open::<(), u32>(None).unwrap();
    let scans = vec![
        Ok(vec![EntryInfo { hash: 1, addr: address(0, 10, 5) }]),
        Ok(vec![EntryInfo { hash: 2, addr: address(1, 10, 6) }]),
        Ok(vec![]),
        Ok(vec![]),
    ];
    let tombstones = vec![Tombstone { hash: 1, sequence: 7 }];
    let engine = opened.recover(scans, &tombstones).unwrap();
    assert!(!engine.may_contains(1));
    assert!(engine.may_contains(2));
    assert_eq!(engine.sequence, 8);
    assert_eq!(engine.block_manager.state(1), Some(BlockState::Evictable));
    assert_eq!(engine.block_manager.state(2), Some(BlockState::Clean));
}

#[test]
fn writes_are_numbered_and_spread_over_the_flushers() {
    let mut engine = engine_for_test();
    engine.flushers = 3;
    assert_eq!(engine.enqueue(7, None, 0), Enqueued::Submitted { flusher: 1, sequence: 1 });
    assert_eq!(
        engine.enqueue(9, Some(Age::Old), 0),
        Enqueued::Submitted { flusher: 0, sequence: 2 }
    );
    assert_eq!(
        engine.enqueue(7, Some(Age::Fresh), 32 * 1024 * 1024),
        Enqueued::Submitted { flusher: 1, sequence: 3 }
    );
    // Neither of these takes a number.
    assert_eq!(engine.enqueue(7, Some(Age::Young), 0), Enqueued::Young);
    assert_eq!(engine.enqueue(7, None, 32 * 1024 * 1024 + 1), Enqueued::Overflow);
    assert_eq!(engine.sequence, 4);
    engine.close();
    assert_eq!(engine.enqueue(7, None, 0), Enqueued::Closed);
    assert_eq!(engine.delete(7), None);
    assert_eq!(engine.destroy().unwrap_err().kind(), ErrorKind::Closed);
    assert_eq!(engine.sequence, 4);
}

#[test]
fn sequences_start_again_after_the_last_one() {
    let mut engine = engine_for_test();
    engine.sequence = u64::MAX;
    assert_eq!(
        engine.enqueue(0, None, 0),
        Enqueued::Submitted { flusher: 0, sequence: u64::MAX }
    );
    assert_eq!(engine.enqueue(0, None, 0), Enqueued::Submitted { flusher: 0, sequence: 0 });
}

#[test]
fn deleted_entry_is_gone() {
    let mut engine = engine_for_test();
    engine.sequence = 10;
    engine.indexer.insert_batch(vec![HashedEntryAddress { hash: 5, address: address(2, 100, 9) }]);
    assert!(engine.may_contains(5));
    assert_eq!(
        engine.delete(5),
        Some(Deletion {
            flusher: 0,
            tombstone: Tombstone { hash: 5, sequence: 10 },
            stats: Some(InvalidStats { block: 2, size: 4096 }),
        })
    );
    assert!(!engine.may_contains(5));
    assert_eq!(engine.load(5, |_| false), LoadStep::Miss);
    // There is nothing left to become invalid.
    assert_eq!(
        engine.delete(5),
        Some(Deletion {
            flusher: 0,
            tombstone: Tombstone { hash: 5, sequence: 11 },
            stats: None,
        })
    );
    // A late write from before the deletion does not bring it back.
    engine.indexer.insert_batch(vec![HashedEntryAddress { hash: 5, address: address(2, 100, 9) }]);
    assert!(!engine.may_contains(5));
}

fn engine_with_entry() -> Engine {
    let mut engine = engine_for_test();
    engine.indexer.insert_batch(vec![HashedEntryAddress { hash: 5, address: address(2, 5000, 9) }]);
    engine
}

#[test]
fn load_reads_whole_pages() {
    let engine = engine_with_entry();
    assert_eq!(engine.load(6, |_| panic!("not asked")), LoadStep::Miss);
    assert_eq!(engine.load(5, |block| block == 2), LoadStep::Throttled);
    assert_eq!(
        engine.load(5, |block| block != 2),
        LoadStep::Read { block: 2, offset: 8192, len: 8192 }
    );
}

fn header() -> EntryHeader {
    EntryHeader {
        key_len: 1,
        value_len: 2,
        hash: 5,
        sequence: 9,
        checksum: 77,
        compression: Compression::Uncompressed,
    }
}

#[test]
fn load_takes_the_header_first() {
    let mut engine = engine_with_entry();
    let mut buf: Vec<u8> = Vec::new();
    header().write(&mut buf);
    buf.resize(4096, 0);
    assert_eq!(engine.load_header(5, &buf).unwrap(), Some(header()));
    assert!(engine.may_contains(5));
    buf[33] ^= 1;
    assert_eq!(engine.load_header(5, &buf).unwrap(), None);
    assert!(!engine.may_contains(5));
    let mut engine = engine_with_entry();
    buf[33] ^= 1;
    buf[35] = 99;
    assert_eq!(engine.load_header(5, &buf).unwrap(), None);
    assert!(!engine.may_contains(5));
}

/// An entry of a key and a value with the lengths in `header()`, with its checksum.
fn entry() -> Vec<u8> {
    let mut buf: Vec<u8> = Vec::new();
    header().write(&mut buf);
    buf.extend_from_slice(&[1, 2, 3]);
    let checksum = EntryHeader::checksum(&buf, 1, 2);
    let mut entry: Vec<u8> = Vec::new();
    EntryHeader { checksum, ..header() }.write(&mut entry);
    entry.extend_from_slice(&buf[EntryHeader::serialized_len()..]);
    entry
}

#[test]
fn load_hands_out_an_intact_entry() {
    let mut engine = engine_with_entry();
    let mut buf = entry();
    let checksum = EntryHeader::checksum(&buf, 1, 2);
    let expected = EntryHeader { checksum, ..header() };
    assert_eq!(engine.load_checked(5, &buf).unwrap().as_ref(), Some(&expected));
    // What follows the entry does not matter.
    buf.resize(4096, 9);
    assert_eq!(engine.load_checked(5, &buf).unwrap(), Some(expected));
    assert!(engine.may_contains(5));
}

#[test]
fn load_forgets_an_entry_that_is_not_intact() {
    // Whichever bit of the entry flips, the length fields and the checksum itself among them.
    let len = entry().len();
    for bit in 0..8 * len {
        let mut engine = engine_with_entry();
        let mut buf = entry();
        buf[bit / 8] ^= 1 << (bit % 8);
        buf.resize(4096, 0);
        assert_eq!(engine.load_checked(5, &buf).unwrap(), None, "bit {bit}");
        assert!(!engine.may_contains(5));
    }
    // An entry that was cut off.
    for cut in EntryHeader::serialized_len()..len {
        let mut engine = engine_with_entry();
        assert_eq!(engine.load_checked(5, &entry()[..cut]).unwrap(), None);
        assert!(!engine.may_contains(5));
    }
    // The header alone can be read all the same.
    let mut engine = engine_with_entry();
    let mut buf = entry();
    buf[len - 1] ^= 1;
    assert!(engine.load_header(5, &buf).unwrap().is_some());
}

#[test]
fn broken_entry_is_forgotten() {
    for e in [
        Error::MagicMismatch { expected: 1, get: 2 },
        Error::ChecksumMismatch { expected: 1, get: 2 },
        Error::OutOfRange { len: 1, start: 0, end: 2 },
    ] {
        let mut engine = engine_with_entry();
        assert_eq!(engine.load_entry::<u8>(5, 2, Err(e)).unwrap(), Load::Miss);
        assert!(!engine.may_contains(5));
    }
    for e in [Error::Io { code: 1 }, Error::Parse { value: 1 }, Error::External { code: 2 }] {
        let kind = e.kind();
        let mut engine = engine_with_entry();
        assert_eq!(engine.load_entry::<u8>(5, 2, Err(e)).unwrap_err().kind(), kind);
        assert!(engine.may_contains(5));
    }
}

#[test]
fn loaded_entry_is_old_in_a_block_on_probation() {
    let mut engine = engine_with_entry();
    assert_eq!(
        engine.load_entry(5, 2, Ok("v")).unwrap(),
        Load::Entry { entry: "v", age: Age::Young }
    );
    engine.block_manager.statistics_mut(2).probation = true;
    assert_eq!(
        engine.load_entry(5, 2, Ok("v")).unwrap(),
        Load::Entry { entry: "v", age: Age::Old }
    );
}

#[test]
fn destroyed_engine_is_empty() {
    let mut engine = engine_with_entry();
    engine.sequence = 10;
    assert_eq!(
        engine.destroy().unwrap(),
        Deletion { flusher: 0, tombstone: Tombstone { hash: 0, sequence: 10 }, stats: None }
    );
    assert!(engine.may_contains(5));
    assert_eq!(engine.clear(), vec![0, 1, 2, 3]);
    assert!(!engine.may_contains(5));
    assert_eq!(engine.sequence, 11);
}

#[test]
fn resize_rounds_down_and_stays_within_bounds() {
    let engine = engine_for_test();
    let block = 16 * KB as u64;
    assert_eq!(engine.resize_disk(3 * block), Resize::Shrink { count: 1, len: 3 * block });
    assert_eq!(engine.resize_disk(4 * block - 1), Resize::Shrink { count: 1, len: 3 * block });
    // One more than the clean block threshold is the least.
    assert_eq!(engine.resize_disk(0), Resize::Shrink { count: 2, len: 2 * block });
    assert_eq!(engine.resize_disk(4 * block), Resize::Keep { len: 4 * block });
    assert_eq!(engine.resize_disk(u64::MAX), Resize::Keep { len: 4 * block });
}

#[test]
fn disk_shrinks_and_grows_back() {
    let mut engine = engine_for_test();
    let block = 16 * KB as u64;
    let grant = engine.block_manager.get_clean_block(()).unwrap();
    assert_eq!(grant.block, 0);
    engine.block_manager.on_writing_finish(0);

    assert_eq!(engine.resize_disk(2 * block), Resize::Shrink { count: 2, len: 2 * block });
    assert_eq!(engine.retire(2, 7), (vec![], true));
    assert!(engine.may_truncate(2 * block));
    assert!(!engine.may_truncate(2 * block - 1));
    assert_eq!(engine.truncated(2 * block, Ok(())).unwrap(), 2 * block);
    let e = engine.truncated(2 * block, Err(Error::Io { code: 5 })).unwrap_err();
    assert_eq!(e.kind(), ErrorKind::Io);
    assert_eq!(engine.block_manager.retired_count(), 2);
    assert_eq!(
        engine.block_manager.counts(),
        BlockCounts { clean: 1, evictable: 1, writing: 0, reclaiming: 0 }
    );

    assert_eq!(engine.resize_disk(4 * block), Resize::Grow { count: 2, len: 4 * block });
    // The device could not be extended.
    let e = engine.extended(2, 4 * block, Err(Error::Io { code: 28 })).unwrap_err();
    assert_eq!(e.kind(), ErrorKind::Io);
    assert_eq!(engine.block_manager.retired_count(), 2);
    assert_eq!(engine.extended(2, 4 * block, Ok(())).unwrap(), (4 * block, vec![]));
    assert_eq!(engine.block_manager.retired_count(), 0);
    assert_eq!(
        engine.block_manager.counts(),
        BlockCounts { clean: 3, evictable: 1, writing: 0, reclaiming: 0 }
    );
}

#[test]
fn disk_is_not_cut_off_while_the_tail_is_written() {
    let mut engine = engine_for_test();
    for id in 0..4 {
        assert_eq!(engine.block_manager.get_clean_block(()).unwrap().block, id);
    }
    // The only reclaimer cleans block 0.
    assert_eq!(engine.block_manager.on_writing_finish(0), Some(0));
    assert_eq!(engine.retire(1, 7), (vec![], false));
    assert!(!engine.may_truncate(3 * 16 * KB as u64));
    assert_eq!(engine.block_manager.on_writing_finish(3), None);
    assert!(!engine.may_truncate(3 * 16 * KB as u64));
    assert_eq!(engine.block_manager.on_reclaim_finish(0, |_, _| true).reclaim, Some(3));
    assert!(!engine.may_truncate(3 * 16 * KB as u64));
    assert_eq!(engine.block_manager.on_reclaim_finish(3, |_, _| true).woken, vec![7]);
    assert!(engine.may_truncate(3 * 16 * KB as u64));
}

#[test]
fn clean_block_threshold_follows_the_reclaimers() {
    let config = config_for_test(64 * KB).with_reclaimers(4);
    assert_eq!(config.reclaimers, 4);
    assert_eq!(config.clean_threshold(), 4);
    let opened = config.build().unwrap().open::<(), u32>(None).unwrap();
    assert!(opened.is_short_of_blocks());
    let scans = vec![Ok(vec![]), Ok(vec![]), Ok(vec![]), Ok(vec![])];
    let engine = opened.recover(scans, &vec![]).unwrap();
    assert_eq!(engine.clean_block_threshold, 4);
    // As many blocks are needed as there are.
    assert_eq!(engine.resize_disk(0), Resize::Keep { len: 64 * KB as u64 });
}

#[test]
fn space_of_every_combined_device_is_used() {
    let device_of = |mib: usize| NoopDevice::new(mib * 1024 * KB, Arc::new(()));
    let device = CombinedDeviceBuilder::new()
        .with_device(device_of(1))
        .with_device(device_of(2))
        .with_device(device_of(4))
        .build(|_| ())
        .unwrap();
    let config =
        BlockEngineConfig::new(device, vec![FifoPicker::new()], 1, 2).with_block_size(64 * 1024);
    let opened = config.build().unwrap().open::<(), u32>(None).unwrap();
    assert_eq!(opened.block_manager.blocks(), 112);
}

#[test]
fn throttled_device_admits_nothing() {
    let engine = engine_for_test();
    assert!(engine.admits(true, false));
    assert!(!engine.admits(true, true));
    assert!(!engine.admits(false, false));
    assert_eq!((engine.admission_filter, engine.reinsertion_filter), ("admit all", "reject all"));
}
